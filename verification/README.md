# npm-utils

Tools for npm packages without Node: read and write manifests and lockfiles, resolve versions
against a registry, plan installs of a `node_modules/` tree, check advisories, and render bills of
materials. The library under `src/` is verified with Verus; the command line tool under `app/` does
the reading, writing and downloading around it.

| Module | What it states |
|---|---|
| `json`, `text`, `sort`, `version` | plain documents, texts, stable sorting and versions, on which everything else rests |
| `package_json` | manifests, their `exports`, the grammar of specifiers and ranges, lockfiles read and written |
| `registry`, `tree` | which version is taken for a range, and the flat tree that a set of roots needs |
| `integrity` | a tarball is taken only where its sha512 digest is the pinned one |
| `path_safety`, `extract` | what is made of an archive stays within its destination |
| `install`, `install::run` | what is installed where, and that nothing is marked before it was checked |
| `project` | which dependencies move within their ranges, and which are dropped |
| `download`, `cache` | what may be fetched and how often, markers, locks and retries |
| `sbom` | license summaries, CycloneDX 1.6 and SPDX 2.3 documents |
| `audit` | advisories read, merged, matched against versions and reported |
| `cli` | what the tool decides and prints |

What other crates do (JSON, semantic versions, digests, archives, times) is called, not rebuilt:
each call stands behind one small function whose doc comment says what is taken for granted of it.

`tests/` runs the library with those crates linked.
