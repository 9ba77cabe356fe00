//! What is to be extracted of an archive, which is not to be trusted.
//!
//! Only regular files and directories are extracted; no link or special file ever is. Every
//! path stays within the destination, and the number of entries and of bytes is bounded.
//! [`tar_gz`] and [`zip`] say what is to be made of the bytes of an archive, entry by entry.

use crate::path_safety::{ensure_within, is_within, path_error_text, PathError, PathErrorView};
use crate::text::{decimal, decimal_of, joined3, same, strip_prefix, stripped};
use flate2::read::GzDecoder;
use std::io::{Cursor, Read};
use vstd::prelude::*;
use vstd::string::*;

verus! {

/// How many entries an archive may have.
pub const MAX_ENTRIES: u64 = 200_000;

/// How many bytes an archive may expand to.
pub const MAX_TOTAL_BYTES: u64 = 4_294_967_296;

/// What an entry of an archive is.
#[derive(Debug, Clone, Copy, PartialEq, Eq, Structural)]
pub enum EntryKind {
    File,
    Directory,
    /// A link or a special file.
    Other,
}

/// An entry of an archive: what it is, and its path, or why it has none.
#[derive(Debug)]
pub struct ArchiveEntry {
    pub kind: EntryKind,
    pub path: Result<String, String>,
}

/// What an [`ArchiveEntry`] holds.
#[verifier::ext_equal]
pub struct EntryView {
    pub kind: EntryKind,
    pub path: Result<Seq<char>, Seq<char>>,
}

/// What a path, or the message in its place, holds.
pub open spec fn text_result(r: Result<String, String>) -> Result<Seq<char>, Seq<char>> {
    match r {
        Ok(s) => Ok(s@),
        Err(m) => Err(m@),
    }
}

impl DeepView for ArchiveEntry {
    type V = EntryView;

    open spec fn deep_view(&self) -> EntryView {
        EntryView { kind: self.kind, path: text_result(self.path) }
    }
}

/// An entry of an archive as it was listed, or the message of the error in its place.
pub type ListedView = Result<EntryView, Seq<char>>;

/// What a listed entry holds.
pub open spec fn listed(r: Result<ArchiveEntry, String>) -> ListedView {
    match r {
        Ok(e) => Ok(e.deep_view()),
        Err(m) => Err(m@),
    }
}

/// What a list of entries holds.
pub open spec fn listing_view(list: Seq<Result<ArchiveEntry, String>>) -> Seq<ListedView> {
    Seq::new(list.len(), |i: int| listed(list[i]))
}

/// An entry as `tar::Archive` gives it: whether it is a directory, whether it is a regular file,
/// its path or the message of the error in its place, and whether it is sparse, where its data
/// begins and how long it is; or the message of an error.
pub type Tarred = Result<(bool, bool, Result<String, String>, (bool, u64, u64)), String>;

/// What a [`Tarred`] holds.
pub type TarredView = Result<
    (bool, bool, Result<Seq<char>, Seq<char>>, (bool, u64, u64)),
    Seq<char>,
>;

/// What an entry of a tarball holds.
pub open spec fn tarred(r: Tarred) -> TarredView {
    match r {
        Ok(e) => Ok((e.0, e.1, text_result(e.2), e.3)),
        Err(m) => Err(m@),
    }
}

/// What a list of entries of a tarball holds.
pub open spec fn tarred_view(list: Seq<Tarred>) -> Seq<TarredView> {
    Seq::new(list.len(), |i: int| tarred(list[i]))
}

/// What `tar::Archive` lists of gzipped bytes on a system whose paths are bytes with `/`
/// between the segments, of so many decompressed bytes at most and up to a number of entries,
/// or the message of its error.
pub uninterp spec fn tar_listing(bytes: Seq<u8>, most: nat, limit: nat) -> Result<
    Seq<TarredView>,
    Seq<char>,
>;

/// An entry as `zip::ZipArchive` gives it: whether it is a directory, whether it is a regular
/// file, and its name, where that stays within the archive; or the message of the error in its
/// place.
pub type ZippedView = Result<(bool, bool, Option<Seq<char>>), Seq<char>>;

/// What an entry of a zip archive holds.
pub open spec fn zipped(r: Result<(bool, bool, Option<String>), String>) -> ZippedView {
    match r {
        Ok(e) => Ok((e.0, e.1, e.2.deep_view())),
        Err(m) => Err(m@),
    }
}

/// What a list of entries of a zip archive holds.
pub open spec fn zipped_view(list: Seq<Result<(bool, bool, Option<String>), String>>) -> Seq<
    ZippedView,
> {
    Seq::new(list.len(), |i: int| zipped(list[i]))
}

/// What `zip::ZipArchive` lists of bytes on a system whose paths have `/` between the segments,
/// or the message of its error.
pub uninterp spec fn zip_listing(bytes: Seq<u8>) -> Result<Seq<ZippedView>, Seq<char>>;

/// `flate2::read::GzDecoder`, which decompresses what it reads.
#[verifier::external_type_specification]
#[verifier::external_body]
#[verifier::reject_recursive_types(R)]
pub struct ExGzDecoder<R>(flate2::read::GzDecoder<R>);

/// What a `flate2::read::GzDecoder` has still to give, up to its end or its error, where it is
/// read by [`next_part`].
pub uninterp spec fn gz_rest(decoder: GzDecoder<&[u8]>) -> Seq<u8>;

/// What a `flate2::read::GzDecoder` gives for bytes, up to its end or its error, where it is
/// read by [`next_part`].
pub uninterp spec fn gz_content(bytes: Seq<u8>) -> Seq<u8>;

/// Calls `flate2::read::GzDecoder::new`: what the decoder has to give depends on the bytes
/// alone.
#[verifier::external_body]
fn open_gz<'a>(bytes: &'a [u8]) -> (r: GzDecoder<&'a [u8]>)
    ensures
        gz_rest(r) == gz_content(bytes@),
{
    GzDecoder::new(bytes)
}

/// Reads a `flate2::read::GzDecoder` for a mebibyte: the bytes, and whether it failed behind
/// them. A part that is shorter, or behind which it failed, is the last.
#[verifier::external_body]
fn next_part(decoder: &mut GzDecoder<&[u8]>) -> (r: (Vec<u8>, bool))
    ensures
        r.0@.len() <= 1_048_576,
        r.1 || r.0@.len() < 1_048_576 ==> gz_rest(*old(decoder)) == r.0@,
        !r.1 && r.0@.len() == 1_048_576 ==> gz_rest(*old(decoder)) == r.0@ + gz_rest(
            *final(decoder),
        ),
{
    let mut part = Vec::new();
    let failed = decoder.by_ref().take(1_048_576).read_to_end(&mut part).is_err();
    (part, failed)
}

/// Lists a gzipped tarball with `tar::Archive` over `flate2::read::GzDecoder`, of which it reads
/// so many bytes at most: of each entry what `EntryType::is_dir` and `is_file` say, its path, and
/// what `EntryType::is_gnu_sparse`, `Entry::raw_file_position` and `Entry::size` say. The list
/// depends on the arguments alone, and is no longer than the limit.
///
/// `tar::Archive` overflows where it comes to the header of a sparse file of such a size that the
/// place behind it, with all further headers of it that there are, is beyond what 64 bits can
/// count. It is not to come to one: what a shorter part of the same tarball lists has to show, of
/// each block that looks like such a header, that it is never read as one. The lists agree on what
/// stands in both parts, the header behind a file stands at the next block behind its data, and an
/// extended header is for the next file alone.
#[verifier::external_body]
fn list_tar_gz(bytes: &[u8], most: u64, limit: usize) -> (r: Result<Vec<Tarred>, String>)
    requires
        gz_content(bytes@).len() < 0x8000_0000_0000_0000,
        most <= gz_content(bytes@).len() + 1,
        forall|at: int| #[trigger]
            is_risky(gz_content(bytes@), at) && at + 512 <= most ==> is_cleared(
                bytes@,
                at,
                limit as nat,
            ),
    ensures
        match r {
            Ok(list) => tar_listing(bytes@, most as nat, limit as nat) == Ok::<
                Seq<TarredView>,
                Seq<char>,
            >(tarred_view(list@)) && list@.len() <= limit,
            Err(m) => tar_listing(bytes@, most as nat, limit as nat) == Err::<
                Seq<TarredView>,
                Seq<char>,
            >(m@),
        },
{
    let mut archive = tar::Archive::new(GzDecoder::new(bytes).take(most));
    let entries = archive.entries().map_err(|e| e.to_string())?.take(limit);
    Ok(entries.map(|entry| entry.map_err(|e| e.to_string()).map(|e| {
        let path = e.path().map(|p| p.to_string_lossy().into_owned());
        let kind = e.header().entry_type();
        let data = (kind.is_gnu_sparse(), e.raw_file_position(), e.size());
        (kind.is_dir(), kind.is_file(), path.map_err(|e| e.to_string()), data)
    })).collect())
}

/// Lists a zip archive with `zip::ZipArchive`: of each entry what `ZipFile::is_dir` and
/// `is_file` say, and its `enclosed_name`. The list depends on the bytes alone.
#[verifier::external_body]
fn list_zip(bytes: &[u8]) -> (r: Result<Vec<Result<(bool, bool, Option<String>), String>>, String>)
    ensures
        match r {
            Ok(list) => zip_listing(bytes@) == Ok::<Seq<ZippedView>, Seq<char>>(
                zipped_view(list@),
            ),
            Err(m) => zip_listing(bytes@) == Err::<Seq<ZippedView>, Seq<char>>(m@),
        },
{
    let mut archive = zip::ZipArchive::new(Cursor::new(bytes)).map_err(|e| e.to_string())?;
    Ok((0..archive.len()).map(|i| archive.by_index(i).map_err(|e| e.to_string()).map(|f| {
        let name = f.enclosed_name().map(|n| n.to_string_lossy().into_owned());
        (f.is_dir(), f.is_file(), name)
    })).collect())
}

/// Whether a header of a sparse file, of the format of GNU, stands at `at`, and says that more
/// headers follow. The last byte of its block does not matter.
pub open spec fn sparse_at(content: Seq<u8>, at: int) -> bool {
    &&& 0 <= at
    &&& at % 512 == 0
    &&& at + 511 <= content.len()
    &&& content[at + 156] == 0x53
    &&& content[at + 257] == 0x75
    &&& content[at + 258] == 0x73
    &&& content[at + 259] == 0x74
    &&& content[at + 260] == 0x61
    &&& content[at + 261] == 0x72
    &&& content[at + 262] == 0x20
    &&& content[at + 263] == 0x20
    &&& content[at + 264] == 0
    &&& content[at + 482] == 1
}

/// Whether there is such a header.
pub open spec fn has_sparse(content: Seq<u8>) -> bool {
    exists|at: int| #[trigger] sparse_at(content, at)
}

/// The number that eight bytes are, the highest first.
pub open spec fn number_at(content: Seq<u8>, at: int) -> nat {
    (content[at] * 0x100_0000_0000_0000 + content[at + 1] * 0x1_0000_0000_0000 + content[at + 2]
        * 0x100_0000_0000 + content[at + 3] * 0x1_0000_0000 + content[at + 4] * 0x100_0000
        + content[at + 5] * 0x1_0000 + content[at + 6] * 0x100 + content[at + 7]) as nat
}

/// Whether the header at `at` itself gives a size with which the place behind the file may be
/// beyond what 64 bits can count, in a tarball of `len` bytes. That takes a size in binary: octal
/// digits are too few.
pub open spec fn claims_too_much(content: Seq<u8>, at: int, len: nat) -> bool {
    content[at + 124] >= 0x80 && number_at(content, at + 128) + len + 1024
        >= 0x1_0000_0000_0000_0000
}

/// Whether eighteen decimal digits stand at `at`.
pub open spec fn digits_at(content: Seq<u8>, at: int) -> bool {
    &&& at + 18 <= content.len()
    &&& forall|i: int| at <= i < at + 18 ==> 0x30 <= #[trigger] content[i] <= 0x39
}

/// Whether ` size=` stands at `at` with eighteen or more digits behind it, as where an extended
/// header gives a size near the end of what 64 bits can count.
pub open spec fn long_size_at(content: Seq<u8>, at: int) -> bool {
    &&& 0 <= at
    &&& at + 24 <= content.len()
    &&& content[at] == 0x20
    &&& content[at + 1] == 0x73
    &&& content[at + 2] == 0x69
    &&& content[at + 3] == 0x7a
    &&& content[at + 4] == 0x65
    &&& content[at + 5] == 0x3d
    &&& digits_at(content, at + 6) || (content[at + 6] == 0x2b && digits_at(content, at + 7))
}

/// Whether a size near the end of what 64 bits can count is given in decimal digits.
pub open spec fn has_long_size(content: Seq<u8>) -> bool {
    exists|at: int| #[trigger] long_size_at(content, at)
}

/// Whether a header of a sparse file stands at `at` and may be of such a size, by itself or, where
/// a size is that long anywhere, by an extended header.
pub open spec fn is_suspect(content: Seq<u8>, at: int, len: nat, long_size: bool) -> bool {
    sparse_at(content, at) && (long_size || claims_too_much(content, at, len))
}

/// Whether the header of a sparse file at `at` in the content of a tarball may be of such a size.
pub open spec fn is_risky(content: Seq<u8>, at: int) -> bool {
    is_suspect(content, at, content.len(), has_long_size(content))
}

/// The first place from `from` on, block by block, where such a header stands.
pub open spec fn next_risky(content: Seq<u8>, from: int) -> Option<int>
    decreases content.len() + 512 - from,
{
    if from + 511 > content.len() {
        None
    } else if is_risky(content, from) {
        Some(from)
    } else {
        next_risky(content, from + 512)
    }
}

/// Whether a list does not end with an error: the tarball was at its end, or the list is as long
/// as it may be.
pub open spec fn is_ended(entries: Seq<TarredView>) -> bool {
    entries.len() == 0 || entries.last() is Ok
}

/// How far the data of the last entry reaches, as far as that is known: of a sparse file only
/// where it begins. A list holds an error at its end at most.
pub open spec fn reach(entries: Seq<TarredView>) -> nat
    decreases entries.len(),
{
    if entries.len() == 0 {
        0
    } else {
        match entries.last() {
            Ok((_, _, _, (sparse, start, size))) => if sparse {
                start as nat
            } else {
                (start + size) as nat
            },
            Err(_) => reach(entries.drop_last()),
        }
    }
}

/// Whether the list of a part of a tarball shows that what stands at `at` is no header of such a
/// size: the tarball was at its end before, it lies in the data of a file, or it gives no such
/// size itself and no extended header between the last file and it does.
pub open spec fn clears(
    listing: Result<Seq<TarredView>, Seq<char>>,
    content: Seq<u8>,
    at: int,
) -> bool {
    match listing {
        Ok(entries) => is_ended(entries) || at < reach(entries) || (!claims_too_much(
            content,
            at,
            content.len(),
        ) && !has_long_size(content.subrange(reach(entries) as int, at))),
        Err(_) => false,
    }
}

/// Whether the list of a part of a tarball that ends in the middle of a block, at the one at `at`
/// or before, clears what stands at `at`.
pub open spec fn is_cleared(bytes: Seq<u8>, at: int, limit: nat) -> bool {
    exists|most: nat|
        most % 512 == 511 && most <= at + 511 && #[trigger] clears(
            tar_listing(bytes, most, limit),
            gz_content(bytes),
            at,
        )
}

/// Where to look on, once the list shows that what stands at `at` is no header of such a size.
pub open spec fn look_on(entries: Seq<TarredView>, at: int, len: int) -> int {
    if is_ended(entries) || reach(entries) >= len {
        len
    } else if at < reach(entries) {
        (reach(entries) + 511) as int / 512 * 512
    } else {
        at + 512
    }
}

/// What is listed of a gzipped tarball in which no header before `from` is of such a size: all of
/// it, unless one may be that no list clears. Then what stands before that one is listed, with
/// an error at the end. That is so of a header which is of such a size, and of a block that looks
/// like one in the data of an extended header.
pub open spec fn listing_from(bytes: Seq<u8>, from: int, limit: nat) -> Result<
    Seq<TarredView>,
    Seq<char>,
>
    decreases gz_content(bytes).len() + 512 - from,
{
    let content = gz_content(bytes);
    match next_risky(content, from) {
        None => tar_listing(bytes, content.len() + 1, limit),
        Some(at) => {
            let before = tar_listing(bytes, (at + 511) as nat, limit);
            if clears(before, content, at) {
                proof {
                    lemma_next_risky(content, from);
                }
                listing_from(bytes, look_on(before->Ok_0, at, content.len() as int), limit)
            } else {
                before
            }
        },
    }
}

/// The next header is where it is said to be, and none is before it.
pub proof fn lemma_next_risky(content: Seq<u8>, from: int)
    ensures
        match next_risky(content, from) {
            Some(at) => from <= at && at + 511 <= content.len() && is_risky(content, at),
            None => true,
        },
        forall|b: int|
            from <= b && (b - from) % 512 == 0 && #[trigger] is_risky(content, b) ==> match next_risky(
                content,
                from,
            ) {
                Some(at) => at <= b,
                None => false,
            },
    decreases content.len() + 512 - from,
{
    if from + 511 <= content.len() && !is_risky(content, from) {
        lemma_next_risky(content, from + 512);
        assert forall|b: int|
            from <= b && (b - from) % 512 == 0 && #[trigger] is_risky(content, b) implies from + 512
            <= b && (b - (from + 512)) % 512 == 0 by {}
    }
}

/// The next header is looked for behind what is not such a header.
proof fn lemma_next_risky_behind(content: Seq<u8>, from: int, to: int)
    requires
        from <= to <= content.len() + 1,
        from % 512 == 0,
        to % 512 == 0,
        forall|b: int| from <= b < to ==> !#[trigger] is_risky(content, b),
    ensures
        next_risky(content, from) == next_risky(content, to),
    decreases to - from,
{
    if from < to {
        assert(!is_risky(content, from));
        lemma_next_risky_behind(content, from + 512, to);
    }
}

/// Whether such a header stands at `at`.
fn is_sparse_at(part: &Vec<u8>, at: usize) -> (r: bool)
    requires
        at + 511 <= part@.len(),
        at % 512 == 0,
    ensures
        r == sparse_at(part@, at as int),
{
    part[at + 156] == 0x53 && part[at + 257] == 0x75 && part[at + 258] == 0x73 && part[at + 259]
        == 0x74 && part[at + 260] == 0x61 && part[at + 261] == 0x72 && part[at + 262] == 0x20
        && part[at + 263] == 0x20 && part[at + 264] == 0 && part[at + 482] == 1
}

/// Whether there is a header of a sparse file.
fn look_for_sparse(part: &Vec<u8>) -> (r: bool)
    requires
        part@.len() <= 1_048_576,
    ensures
        r == has_sparse(part@),
{
    let mut at: usize = 0;
    while at + 511 <= part.len()
        invariant
            part@.len() <= 1_048_576,
            at % 512 == 0,
            at <= part@.len() + 1,
            forall|b: int| b < at ==> !#[trigger] sparse_at(part@, b),
        decreases part@.len() + 512 - at,
    {
        let ghost here = at as int;
        if is_sparse_at(part, at) {
            return true;
        }
        at += 512;
        assert forall|b: int| b < at && #[trigger] sparse_at(part@, b) implies b <= here by {
            assert(b % 512 == 0 && here % 512 == 0);
        }
    }
    false
}

/// The number that eight bytes are, the highest first.
fn read_number(part: &Vec<u8>, at: usize) -> (r: u64)
    requires
        at + 8 <= part@.len() <= 1_048_576,
    ensures
        r == number_at(part@, at as int),
{
    part[at] as u64 * 0x100_0000_0000_0000 + part[at + 1] as u64 * 0x1_0000_0000_0000 + part[at
        + 2] as u64 * 0x100_0000_0000 + part[at + 3] as u64 * 0x1_0000_0000 + part[at + 4] as u64
        * 0x100_0000 + part[at + 5] as u64 * 0x1_0000 + part[at + 6] as u64 * 0x100 + part[at
        + 7] as u64
}

/// Whether the header at `at` itself gives a size that is too large.
fn is_claim_too_much(part: &Vec<u8>, at: usize, len: u64) -> (r: bool)
    requires
        at + 511 <= part@.len() <= 1_048_576,
    ensures
        r == claims_too_much(part@, at as int, len as nat),
{
    part[at + 124] >= 0x80 && read_number(part, at + 128) as u128 + len as u128 + 1024
        >= 0x1_0000_0000_0000_0000
}

/// Whether eighteen decimal digits stand at `at`.
fn are_digits_at(part: &Vec<u8>, at: usize) -> (r: bool)
    requires
        at <= part@.len() <= 2_000_000,
    ensures
        r == digits_at(part@, at as int),
{
    if at + 18 > part.len() {
        return false;
    }
    let mut i: usize = at;
    while i < at + 18
        invariant
            at <= i <= at + 18 <= part@.len() <= 2_000_000,
            forall|j: int| at <= j < i ==> 0x30 <= #[trigger] part@[j] <= 0x39,
        decreases at + 18 - i,
    {
        if !(0x30 <= part[i] && part[i] <= 0x39) {
            return false;
        }
        i += 1;
    }
    true
}

/// Whether ` size=` stands somewhere with eighteen or more digits behind it.
fn look_for_size(part: &Vec<u8>) -> (r: bool)
    requires
        part@.len() <= 2_000_000,
    ensures
        r == has_long_size(part@),
{
    let mut at: usize = 0;
    while at + 24 <= part.len()
        invariant
            part@.len() <= 2_000_000,
            at <= part@.len(),
            forall|b: int| b < at ==> !#[trigger] long_size_at(part@, b),
        decreases part@.len() - at,
    {
        if part[at] == 0x20 && part[at + 1] == 0x73 && part[at + 2] == 0x69 && part[at + 3] == 0x7a
            && part[at + 4] == 0x65 && part[at + 5] == 0x3d && (are_digits_at(part, at + 6) || (
        part[at + 6] == 0x2b && are_digits_at(part, at + 7))) {
            assert(long_size_at(part@, at as int));
            return true;
        }
        assert(!long_size_at(part@, at as int));
        at += 1;
    }
    false
}

/// Headers are in what was seen or in the next part, where that begins with a block.
proof fn lemma_join_sparse(seen: Seq<u8>, part: Seq<u8>)
    requires
        seen.len() % 512 == 0,
    ensures
        has_sparse(seen + part) <==> has_sparse(seen) || has_sparse(part),
{
    let all = seen + part;
    let n = seen.len() as int;
    assert forall|at: int| #[trigger] sparse_at(seen, at) implies sparse_at(all, at) by {}
    assert forall|at: int| #[trigger] sparse_at(part, at) implies sparse_at(all, n + at) by {
        assert((n + at) % 512 == 0);
        assert forall|i: int| 0 <= i < part.len() implies #[trigger] part[i] == all[n + i] by {}
    }
    assert forall|at: int| #[trigger] sparse_at(all, at) implies sparse_at(seen, at) || sparse_at(
        part,
        at - n,
    ) by {
        if at < n {
            assert(at + 512 <= n) by {
                assert(at % 512 == 0 && n % 512 == 0);
            }
        } else {
            assert((at - n) % 512 == 0);
            assert forall|i: int| n <= i < all.len() implies #[trigger] all[i] == part[i - n] by {}
        }
    }
}

/// A size is in what was seen, or in the next part with the end of what was seen before it.
proof fn lemma_join_size(seen: Seq<u8>, part: Seq<u8>, tail: Seq<u8>)
    requires
        tail.len() <= seen.len(),
        tail == seen.skip(seen.len() - tail.len()),
        tail.len() >= 24 || tail.len() == seen.len(),
    ensures
        has_long_size(seen + part) <==> has_long_size(seen) || has_long_size(tail + part),
{
    let all = seen + part;
    let window = tail + part;
    let n = seen.len() - tail.len();
    assert(window =~= all.skip(n));
    assert forall|at: int| #[trigger] long_size_at(seen, at) implies long_size_at(all, at) by {
        if digits_at(seen, at + 6) {
            assert(digits_at(all, at + 6));
        } else {
            assert(digits_at(all, at + 7));
        }
    }
    assert forall|at: int| #[trigger] long_size_at(window, at) implies long_size_at(
        all,
        n + at,
    ) by {
        assert forall|i: int| 0 <= i < window.len() implies #[trigger] window[i] == all[n + i] by {}
        assert forall|i: int| n <= i < all.len() implies #[trigger] all[i] == window[i - n] by {}
        if digits_at(window, at + 6) {
            assert(digits_at(all, n + at + 6));
        } else {
            assert(digits_at(all, n + at + 7));
        }
    }
    assert forall|at: int| #[trigger] long_size_at(all, at) implies long_size_at(seen, at)
        || long_size_at(window, at - n) by {
        if at >= n {
            assert forall|i: int| 0 <= i < window.len() implies #[trigger] window[i] == all[n
                + i] by {}
            if digits_at(all, at + 6) {
                assert(digits_at(window, at - n + 6));
            } else {
                assert(digits_at(window, at - n + 7));
            }
        } else {
            assert(at + 25 <= seen.len());
            assert forall|i: int| 0 <= i < seen.len() implies #[trigger] seen[i] == all[i] by {}
            if digits_at(all, at + 6) {
                assert(digits_at(seen, at + 6));
            } else {
                assert(digits_at(seen, at + 7));
            }
        }
    }
    if has_long_size(all) {
        let at = choose|at: int| #[trigger] long_size_at(all, at);
        assert(long_size_at(seen, at) || long_size_at(window, at - n));
    }
    if has_long_size(window) {
        let at = choose|at: int| #[trigger] long_size_at(window, at);
        assert(long_size_at(all, n + at));
    }
}

/// The last bytes of what was seen, twenty-four of them where there are as many.
fn last_bytes(tail: &Vec<u8>, part: &Vec<u8>) -> (r: (Vec<u8>, Vec<u8>))
    requires
        tail@.len() <= 24,
        part@.len() <= 1_048_576,
    ensures
        r.0@ == tail@ + part@,
        ({
            let n = if r.0@.len() > 24 {
                r.0@.len() - 24
            } else {
                0
            };
            r.1@ == r.0@.skip(n)
        }),
{
    let mut window: Vec<u8> = Vec::new();
    let mut i: usize = 0;
    while i < tail.len()
        invariant
            i <= tail@.len() <= 24,
            window@ =~= tail@.take(i as int),
        decreases tail@.len() - i,
    {
        window.push(tail[i]);
        i += 1;
    }
    let mut j: usize = 0;
    while j < part.len()
        invariant
            j <= part@.len(),
            window@ =~= tail@ + part@.take(j as int),
        decreases part@.len() - j,
    {
        window.push(part[j]);
        j += 1;
    }
    let n: usize = if window.len() > 24 {
        window.len() - 24
    } else {
        0
    };
    let mut end: Vec<u8> = Vec::new();
    let mut k: usize = n;
    while k < window.len()
        invariant
            n <= k <= window@.len(),
            end@ =~= window@.skip(n as int).take(k - n),
        decreases window@.len() - k,
    {
        end.push(window[k]);
        k += 1;
    }
    (window, end)
}

/// How many bytes a gzipped tarball holds, whether there is a header of a sparse file among them,
/// and whether a size of many digits; unless they are more than half of what 64 bits can count.
fn measure_tar_gz(bytes: &[u8]) -> (r: Option<(u64, bool, bool)>)
    ensures
        match r {
            Some((n, sparse, long_size)) => n == gz_content(bytes@).len() && n
                < 0x8000_0000_0000_0000 && sparse == has_sparse(gz_content(bytes@)) && long_size
                == has_long_size(gz_content(bytes@)),
            None => gz_content(bytes@).len() >= 0x8000_0000_0000_0000,
        },
{
    let ghost content = gz_content(bytes@);
    let ghost mut seen: Seq<u8> = Seq::empty();
    let mut decoder = open_gz(bytes);
    let mut n: u64 = 0;
    let mut sparse = false;
    let mut long_size = false;
    let mut tail: Vec<u8> = Vec::new();
    assert(seen + gz_rest(decoder) =~= content);
    assert(tail@ =~= seen.skip(0));
    loop
        invariant
            content == gz_content(bytes@),
            content == seen + gz_rest(decoder),
            n == seen.len(),
            n % 512 == 0,
            n < 0x8000_0000_0000_0000,
            sparse == has_sparse(seen),
            long_size == has_long_size(seen),
            tail@.len() <= 24,
            tail@.len() <= seen.len(),
            tail@ == seen.skip(seen.len() - tail@.len()),
            tail@.len() == 24 || tail@.len() == seen.len(),
        decreases content.len() - seen.len(),
    {
        let ghost before = seen;
        let (part, failed) = next_part(&mut decoder);
        let last = failed || part.len() < 1_048_576;
        let (window, end) = last_bytes(&tail, &part);
        sparse = look_for_sparse(&part) || sparse;
        long_size = look_for_size(&window) || long_size;
        n = n + part.len() as u64;
        proof {
            lemma_join_sparse(before, part@);
            lemma_join_size(before, part@, tail@);
            seen = before + part@;
            if last {
                assert(content =~= seen);
            } else {
                assert(content =~= seen + gz_rest(decoder));
            }
        }
        if n >= 0x8000_0000_0000_0000 {
            return None;
        }
        if last {
            return Some((n, sparse, long_size));
        }
        assert(end@ =~= seen.skip(seen.len() - end@.len()));
        tail = end;
    }
}

/// Where the first header of a sparse file that may be too large stands in a part, from `start`
/// on.
fn first_suspect(part: &Vec<u8>, start: u64, len: u64, long_size: bool) -> (r: Option<usize>)
    requires
        part@.len() <= 1_048_576,
        start % 512 == 0,
    ensures
        match r {
            Some(at) => start <= at && at % 512 == 0 && at + 511 <= part@.len() && is_suspect(
                part@,
                at as int,
                len as nat,
                long_size,
            ) && forall|b: int|
                start <= b < at ==> !#[trigger] is_suspect(part@, b, len as nat, long_size),
            None => forall|b: int|
                start <= b ==> !#[trigger] is_suspect(part@, b, len as nat, long_size),
        },
{
    if start >= part.len() as u64 {
        return None;
    }
    let mut at: usize = start as usize;
    while at + 511 <= part.len()
        invariant
            part@.len() <= 1_048_576,
            at % 512 == 0,
            start <= at <= part@.len() + 1,
            forall|b: int|
                start <= b < at ==> !#[trigger] is_suspect(part@, b, len as nat, long_size),
        decreases part@.len() + 512 - at,
    {
        let ghost here = at as int;
        if is_sparse_at(part, at) && (long_size || is_claim_too_much(part, at, len)) {
            return Some(at);
        }
        at += 512;
        assert forall|b: int| b < at && #[trigger] is_suspect(
            part@,
            b,
            len as nat,
            long_size,
        ) implies b <= here by {
            assert(b % 512 == 0 && here % 512 == 0);
        }
    }
    None
}

/// What stands in a part stands in the content.
proof fn lemma_suspects(content: Seq<u8>, part: Seq<u8>, pos: int)
    requires
        0 <= pos,
        pos % 512 == 0,
        pos + part.len() <= content.len(),
        part == content.subrange(pos, pos + part.len()),
    ensures
        forall|b: int, len: nat, long_size: bool|
            0 <= b && b + 511 <= part.len() ==> #[trigger] is_suspect(part, b, len, long_size)
                == is_suspect(content, pos + b, len, long_size),
        forall|b: int, len: nat|
            0 <= b && b + 511 <= part.len() ==> #[trigger] claims_too_much(part, b, len)
                == claims_too_much(content, pos + b, len),
{
    assert forall|i: int| 0 <= i < part.len() implies #[trigger] part[i] == content[pos + i] by {}
    assert forall|b: int, len: nat| 0 <= b && b + 511 <= part.len() implies #[trigger]
        claims_too_much(part, b, len) == claims_too_much(content, pos + b, len) by {
        assert(number_at(part, b + 128) == number_at(content, pos + b + 128)) by {
            assert forall|i: int| 128 <= i < 136 implies #[trigger] part[b + i] == content[pos + b
                + i] by {}
        }
    }
    assert forall|b: int, len: nat, long_size: bool| 0 <= b && b + 511 <= part.len() implies
        #[trigger] is_suspect(part, b, len, long_size) == is_suspect(
        content,
        pos + b,
        len,
        long_size,
    ) by {
        assert((pos + b) % 512 == b % 512);
        assert(sparse_at(part, b) == sparse_at(content, pos + b));
        assert(claims_too_much(part, b, len) == claims_too_much(content, pos + b, len));
    }
}

/// Where no header in a part is such a one, the next is looked for behind it.
proof fn lemma_none_between(content: Seq<u8>, part: Seq<u8>, pos: int, from: int, to: int)
    requires
        0 <= pos <= from <= to <= pos + part.len(),
        pos % 512 == 0,
        from % 512 == 0,
        to % 512 == 0,
        pos + part.len() <= content.len(),
        part == content.subrange(pos, pos + part.len()),
        forall|b: int|
            from - pos <= b < to - pos ==> !#[trigger] is_suspect(
                part,
                b,
                content.len(),
                has_long_size(content),
            ),
    ensures
        next_risky(content, from) == next_risky(content, to),
{
    lemma_suspects(content, part, pos);
    assert forall|b: int| from <= b < to implies !#[trigger] is_risky(content, b) by {
        if is_risky(content, b) {
            assert(b % 512 == 0);
            assert(!is_suspect(part, b - pos, content.len(), has_long_size(content)));
        }
    }
    lemma_next_risky_behind(content, from, to);
}

/// The first header that is such a one in a part is the next in the content.
proof fn lemma_next_in_part(content: Seq<u8>, part: Seq<u8>, pos: int, from: int, at: int)
    requires
        0 <= pos <= from <= pos + at,
        at + 511 <= part.len(),
        pos % 512 == 0,
        from % 512 == 0,
        at % 512 == 0,
        pos + part.len() <= content.len(),
        part == content.subrange(pos, pos + part.len()),
        is_suspect(part, at, content.len(), has_long_size(content)),
        forall|b: int|
            from - pos <= b < at ==> !#[trigger] is_suspect(
                part,
                b,
                content.len(),
                has_long_size(content),
            ),
    ensures
        next_risky(content, from) == Some(pos + at),
        claims_too_much(part, at, content.len()) == claims_too_much(
            content,
            pos + at,
            content.len(),
        ),
{
    lemma_none_between(content, part, pos, from, pos + at);
    lemma_suspects(content, part, pos);
    assert(is_risky(content, pos + at));
}

/// Where no header in the last part is such a one, there is no next.
proof fn lemma_none_left(content: Seq<u8>, part: Seq<u8>, pos: int, from: int)
    requires
        0 <= pos <= from,
        pos % 512 == 0,
        from % 512 == 0,
        pos + part.len() == content.len(),
        part == content.subrange(pos, pos + part.len()),
        forall|b: int|
            from - pos <= b ==> !#[trigger] is_suspect(
                part,
                b,
                content.len(),
                has_long_size(content),
            ),
    ensures
        next_risky(content, from) is None,
{
    lemma_next_risky(content, from);
    lemma_suspects(content, part, pos);
    if let Some(at) = next_risky(content, from) {
        assert(!is_suspect(part, at - pos, content.len(), has_long_size(content)));
    }
}

/// Where the next header of a sparse file that may be too large stands, from `from` on, and
/// whether it is so by itself.
fn find_risky(bytes: &[u8], from: u64, len: u64, long_size: bool) -> (r: Option<(u64, bool)>)
    requires
        len == gz_content(bytes@).len(),
        len < 0x8000_0000_0000_0000,
        long_size == has_long_size(gz_content(bytes@)),
        from % 512 == 0,
    ensures
        match r {
            Some((at, claim)) => next_risky(gz_content(bytes@), from as int) == Some(at as int)
                && claim == claims_too_much(gz_content(bytes@), at as int, len as nat),
            None => next_risky(gz_content(bytes@), from as int) is None,
        },
{
    let ghost content = gz_content(bytes@);
    let ghost mut seen: Seq<u8> = Seq::empty();
    let mut decoder = open_gz(bytes);
    let mut pos: u64 = 0;
    assert(seen + gz_rest(decoder) =~= content);
    loop
        invariant
            content == gz_content(bytes@),
            content == seen + gz_rest(decoder),
            content.len() == len,
            len < 0x8000_0000_0000_0000,
            long_size == has_long_size(content),
            pos == seen.len(),
            pos % 512 == 0,
            from % 512 == 0,
            from < pos ==> next_risky(content, from as int) == next_risky(content, pos as int),
        decreases content.len() - seen.len(),
    {
        let ghost before = seen;
        let ghost cur: int = if from < pos {
            pos as int
        } else {
            from as int
        };
        let (part, failed) = next_part(&mut decoder);
        let last = failed || part.len() < 1_048_576;
        let start: u64 = if from > pos {
            from - pos
        } else {
            0
        };
        proof {
            seen = before + part@;
            if last {
                assert(content =~= seen);
            } else {
                assert(content =~= seen + gz_rest(decoder));
            }
            assert(part@ =~= content.subrange(pos as int, pos + part@.len()));
        }
        if let Some(at) = first_suspect(&part, start, len, long_size) {
            proof {
                lemma_next_in_part(content, part@, pos as int, cur, at as int);
            }
            let claim = is_claim_too_much(&part, at, len);
            return Some((pos + at as u64, claim));
        }
        if last {
            proof {
                lemma_none_left(content, part@, pos as int, cur);
            }
            return None;
        }
        proof {
            if from < pos + part@.len() {
                lemma_none_between(content, part@, pos as int, cur, pos + part@.len());
            }
        }
        pos = pos + part.len() as u64;
    }
}

/// The bytes of a part, which stands at `pos`, that lie between `from` and `to`.
fn clip(part: &Vec<u8>, pos: u64, from: u64, to: u64) -> (r: Vec<u8>)
    requires
        part@.len() <= 1_048_576,
        pos + part@.len() <= u64::MAX,
        from <= to,
    ensures
        r@ == part@.subrange(
            clamped(pos as int, pos + part@.len(), from as int) - pos,
            clamped(pos as int, pos + part@.len(), to as int) - pos,
        ),
{
    let len: u64 = part.len() as u64;
    let low: usize = if from <= pos {
        0
    } else if from - pos < len {
        (from - pos) as usize
    } else {
        part.len()
    };
    let high: usize = if to <= pos {
        0
    } else if to - pos < len {
        (to - pos) as usize
    } else {
        part.len()
    };
    let mut out: Vec<u8> = Vec::new();
    let mut i: usize = low;
    while i < high
        invariant
            low <= i <= high <= part@.len(),
            out@ =~= part@.subrange(low as int, i as int),
        decreases high - i,
    {
        out.push(part[i]);
        i += 1;
    }
    out
}

/// `x`, or the bound that it is beyond.
spec fn clamped(low: int, high: int, x: int) -> int {
    if x < low {
        low
    } else if x > high {
        high
    } else {
        x
    }
}

/// Whether a size of many digits is given between `from` and `to` in the content of a tarball.
fn is_long_size_between(bytes: &[u8], from: u64, to: u64) -> (r: bool)
    requires
        from <= to <= gz_content(bytes@).len() < 0x8000_0000_0000_0000,
    ensures
        r == has_long_size(gz_content(bytes@).subrange(from as int, to as int)),
{
    let ghost content = gz_content(bytes@);
    let ghost mut seen: Seq<u8> = Seq::empty();
    let ghost mut got: Seq<u8> = Seq::empty();
    let mut decoder = open_gz(bytes);
    let mut pos: u64 = 0;
    let mut tail: Vec<u8> = Vec::new();
    assert(seen + gz_rest(decoder) =~= content);
    assert(tail@ =~= got.skip(0));
    assert(got =~= content.subrange(from as int, from as int));
    loop
        invariant
            content == gz_content(bytes@),
            content == seen + gz_rest(decoder),
            content.len() < 0x8000_0000_0000_0000,
            from <= to <= content.len(),
            pos == seen.len(),
            got == content.subrange(from as int, clamped(from as int, to as int, pos as int)),
            !has_long_size(got),
            tail@.len() <= 24,
            tail@.len() <= got.len(),
            tail@ == got.skip(got.len() - tail@.len()),
            tail@.len() == 24 || tail@.len() == got.len(),
        decreases content.len() - seen.len(),
    {
        let ghost before = seen;
        let ghost had = got;
        let (part, failed) = next_part(&mut decoder);
        let last = failed || part.len() < 1_048_576;
        proof {
            seen = before + part@;
            if last {
                assert(content =~= seen);
            } else {
                assert(content =~= seen + gz_rest(decoder));
            }
        }
        let piece = clip(&part, pos, from, to);
        let (window, end) = last_bytes(&tail, &piece);
        let found = look_for_size(&window);
        proof {
            lemma_join_size(had, piece@, tail@);
            got = had + piece@;
            assert(got =~= content.subrange(
                from as int,
                clamped(from as int, to as int, pos + part@.len()),
            ));
        }
        pos = pos + part.len() as u64;
        if found {
            proof {
                if pos < to {
                    let rest = content.subrange(clamped(from as int, to as int, pos as int), to as int);
                    assert(content.subrange(from as int, to as int) =~= got + rest);
                    assert(got =~= got.skip(0));
                    lemma_join_size(got, rest, got);
                }
            }
            return true;
        }
        if last || pos >= to {
            return false;
        }
        assert(end@ =~= got.skip(got.len() - end@.len()));
        tail = end;
    }
}

/// Whether a list does not end with an error, and how far the data of its last entry reaches.
fn reach_of(list: &Vec<Tarred>) -> (r: (bool, u128))
    requires
        list@.len() <= 200_001,
    ensures
        r.0 == is_ended(tarred_view(list@)),
        r.1 == reach(tarred_view(list@)),
{
    let ended = list.len() == 0 || list[list.len() - 1].is_ok();
    let mut i: usize = list.len();
    assert(tarred_view(list@).take(i as int) =~= tarred_view(list@));
    while i > 0
        invariant
            i <= list@.len(),
            ended == is_ended(tarred_view(list@)),
            reach(tarred_view(list@).take(i as int)) == reach(tarred_view(list@)),
        decreases i,
    {
        let ghost here = tarred_view(list@).take(i as int);
        assert(here.last() == tarred(list@[i - 1]));
        if let Ok((_, _, _, (sparse, start, size))) = &list[i - 1] {
            return (
                ended,
                if *sparse {
                    *start as u128
                } else {
                    *start as u128 + *size as u128
                },
            );
        }
        assert(here.drop_last() =~= tarred_view(list@).take(i - 1));
        i -= 1;
    }
    (ended, 0)
}

/// What a list clears, it clears up to where the next header is looked for.
proof fn lemma_look_on(bytes: Seq<u8>, at: int, limit: nat)
    requires
        next_risky(gz_content(bytes), at) == Some(at),
        clears(tar_listing(bytes, (at + 511) as nat, limit), gz_content(bytes), at),
    ensures
        ({
            let content = gz_content(bytes);
            let entries = tar_listing(bytes, (at + 511) as nat, limit)->Ok_0;
            let on = look_on(entries, at, content.len() as int);
            &&& at < on
            &&& on % 512 == 0 || on == content.len()
            &&& forall|b: int|
                at <= b < on && #[trigger] is_risky(content, b) ==> is_cleared(bytes, b, limit)
        }),
{
    let content = gz_content(bytes);
    lemma_next_risky(content, at);
    let most = (at + 511) as nat;
    let listing = tar_listing(bytes, most, limit);
    let entries = listing->Ok_0;
    let on = look_on(entries, at, content.len() as int);
    assert(most % 512 == 511);
    assert forall|b: int| at <= b < on && #[trigger] is_risky(content, b) implies is_cleared(
        bytes,
        b,
        limit,
    ) by {
        assert(b % 512 == 0);
        assert(clears(listing, content, b)) by {
            if !is_ended(entries) && reach(entries) < content.len() && at < reach(entries) {
                assert(b < reach(entries));
            } else if !is_ended(entries) && reach(entries) < content.len() {
                assert(b == at);
            }
        }
    }
}

/// The entries of a gzipped tarball, or why there are none.
fn list_entries(bytes: &[u8]) -> (r: Result<Vec<Tarred>, ExtractError>)
    ensures
        match r {
            Ok(list) => tar_entries_of(bytes@) == Ok::<Seq<TarredView>, ExtractErrorView>(
                tarred_view(list@),
            ),
            Err(e) => tar_entries_of(bytes@) == Err::<Seq<TarredView>, ExtractErrorView>(
                e.deep_view(),
            ),
        },
{
    let ghost content = gz_content(bytes@);
    let (len, sparse, long_size) = match measure_tar_gz(bytes) {
        Some(found) => found,
        None => {
            return Err(ExtractError::TooLarge);
        },
    };
    let mut from: u64 = 0;
    loop
        invariant
            content == gz_content(bytes@),
            content.len() == len,
            len < 0x8000_0000_0000_0000,
            sparse == has_sparse(content),
            long_size == has_long_size(content),
            from % 512 == 0 || from == len,
            from <= len + 511,
            forall|b: int|
                b < from && #[trigger] is_risky(content, b) ==> is_cleared(bytes@, b, 200_001),
            listing_from(bytes@, from as int, 200_001) == listing_from(bytes@, 0, 200_001),
        decreases len + 512 - from,
    {
        proof {
            lemma_next_risky(content, from as int);
        }
        let next = if sparse && from < len {
            find_risky(bytes, from, len, long_size)
        } else {
            None
        };
        let (at, claim) = match next {
            Some(found) => found,
            None => {
                assert(next_risky(content, from as int) is None);
                assert forall|b: int| #[trigger] is_risky(content, b) implies b < from by {
                    assert(sparse_at(content, b));
                    if from <= b {
                        assert((b - from) % 512 == 0);
                    }
                }
                return match list_tar_gz(bytes, len + 1, 200_001) {
                    Ok(list) => Ok(list),
                    Err(message) => Err(ExtractError::Archive(message)),
                };
            },
        };
        proof {
            assert forall|b: int| b < at && #[trigger] is_risky(content, b) implies b < from by {
                if from <= b {
                    assert((b - from) % 512 == 0);
                }
            }
        }
        let list = match list_tar_gz(bytes, at + 511, 200_001) {
            Ok(list) => list,
            Err(message) => {
                return Err(ExtractError::Archive(message));
            },
        };
        let (ended, reached) = reach_of(&list);
        let cleared = ended || (at as u128) < reached || (!claim && !is_long_size_between(
            bytes,
            reached as u64,
            at,
        ));
        if !cleared {
            return Ok(list);
        }
        proof {
            lemma_look_on(bytes@, at as int, 200_001);
        }
        from = if ended || reached >= len as u128 {
            len
        } else if (at as u128) < reached {
            (reached as u64 + 511) / 512 * 512
        } else {
            at + 512
        };
    }
}

/// An entry of a tarball as an entry of an archive.
pub open spec fn untarred(entry: TarredView) -> ListedView {
    match entry {
        Err(message) => Err(message),
        Ok((is_dir, is_file, path, _)) => Ok(
            EntryView {
                kind: if is_dir {
                    EntryKind::Directory
                } else if is_file {
                    EntryKind::File
                } else {
                    EntryKind::Other
                },
                path,
            },
        ),
    }
}

/// The entries of a tarball as entries of an archive.
pub open spec fn untarred_all(entries: Seq<TarredView>) -> Seq<ListedView> {
    Seq::new(entries.len(), |i: int| untarred(entries[i]))
}

/// The entries of a tarball as entries of an archive.
pub fn tar_entries(entries: Vec<Tarred>) -> (r: Vec<Result<ArchiveEntry, String>>)
    ensures
        listing_view(r@) == untarred_all(tarred_view(entries@)),
{
    let ghost all = entries@;
    let mut out: Vec<Result<ArchiveEntry, String>> = Vec::new();
    let mut i: usize = 0;
    while i < entries.len()
        invariant
            i <= entries@.len(),
            all == entries@,
            out@.len() == i,
            forall|j: int| 0 <= j < i ==> listed(#[trigger] out@[j]) == untarred(tarred(all[j])),
        decreases entries@.len() - i,
    {
        let entry: Result<ArchiveEntry, String> = match &entries[i] {
            Err(message) => Err(message.clone()),
            Ok((is_dir, is_file, path, _)) => Ok(
                ArchiveEntry {
                    kind: if *is_dir {
                        EntryKind::Directory
                    } else if *is_file {
                        EntryKind::File
                    } else {
                        EntryKind::Other
                    },
                    path: match path {
                        Ok(p) => Ok(p.clone()),
                        Err(message) => Err(message.clone()),
                    },
                },
            ),
        };
        out.push(entry);
        i += 1;
    }
    assert(listing_view(out@) =~= untarred_all(tarred_view(all)));
    out
}

/// An entry of a zip archive as an entry of an archive: a name that leads out of it is an error.
/// A directory counts as one only where directories are made.
pub open spec fn unzipped(entry: ZippedView, all: bool) -> ListedView {
    match entry {
        Err(message) => Err(message),
        Ok((is_dir, is_file, name)) => Ok(
            EntryView {
                kind: if is_dir && all {
                    EntryKind::Directory
                } else if is_file && !is_dir {
                    EntryKind::File
                } else {
                    EntryKind::Other
                },
                path: match name {
                    Some(path) => Ok(path),
                    None => Err("unsafe zip entry name (escapes destination)"@),
                },
            },
        ),
    }
}

/// The entries of a zip archive as entries of an archive.
pub open spec fn unzipped_all(entries: Seq<ZippedView>, all: bool) -> Seq<ListedView> {
    Seq::new(entries.len(), |i: int| unzipped(entries[i], all))
}

/// The entries of a zip archive as entries of an archive.
pub fn zip_entries(
    entries: Vec<Result<(bool, bool, Option<String>), String>>,
    all: bool,
) -> (r: Vec<Result<ArchiveEntry, String>>)
    ensures
        listing_view(r@) == unzipped_all(zipped_view(entries@), all),
{
    let ghost given = entries@;
    let mut out: Vec<Result<ArchiveEntry, String>> = Vec::new();
    let mut i: usize = 0;
    while i < entries.len()
        invariant
            i <= entries@.len(),
            given == entries@,
            out@.len() == i,
            forall|j: int|
                0 <= j < i ==> listed(#[trigger] out@[j]) == unzipped(zipped(given[j]), all),
        decreases entries@.len() - i,
    {
        let entry: Result<ArchiveEntry, String> = match &entries[i] {
            Err(message) => Err(message.clone()),
            Ok((is_dir, is_file, name)) => Ok(
                ArchiveEntry {
                    kind: if *is_dir && all {
                        EntryKind::Directory
                    } else if *is_file && !*is_dir {
                        EntryKind::File
                    } else {
                        EntryKind::Other
                    },
                    path: match name {
                        Some(path) => Ok(path.clone()),
                        None => Err("unsafe zip entry name (escapes destination)".to_owned()),
                    },
                },
            ),
        };
        out.push(entry);
        i += 1;
    }
    assert(listing_view(out@) =~= unzipped_all(zipped_view(given), all));
    out
}

/// Which entries of an archive are extracted, and where to.
pub enum Select<'a, F: Fn(&str) -> Option<String>> {
    /// Every file under its own path, and the directories.
    All,
    /// The files that are listed, each at the path beside it.
    Files(&'a [(String, String)]),
    /// What the function gives a path for.
    Matching(F),
}

/// The destination that a list gives for a path: that of the first pair with the path.
pub open spec fn listed_dest(files: Seq<(Seq<char>, Seq<char>)>, rel: Seq<char>) -> Option<
    Seq<char>,
>
    decreases files.len(),
{
    if files.len() == 0 {
        None
    } else if files[0].0 == rel {
        Some(files[0].1)
    } else {
        listed_dest(files.drop_first(), rel)
    }
}

impl<'a, F: Fn(&str) -> Option<String>> Select<'a, F> {
    /// Whether the selection can be asked for every path.
    pub open spec fn is_total(&self) -> bool {
        match *self {
            Select::Matching(f) => forall|rel: &str| #[trigger] call_requires(f, (rel,)),
            _ => true,
        }
    }

    /// Whether the selection may give this destination for a path.
    pub open spec fn may_give(&self, rel: Seq<char>, dest: Option<Seq<char>>) -> bool {
        match *self {
            Select::All => dest == Some(rel),
            Select::Files(files) => dest == listed_dest(files.deep_view(), rel),
            Select::Matching(f) => exists|s: &str, d: Option<String>| #[trigger]
                call_ensures(f, (s,), d) && s@ == rel && d.deep_view() == dest,
        }
    }

    /// The destination of an entry, or nothing where it is not extracted.
    pub fn dest_for(&self, rel: &str) -> (r: Option<String>)
        requires
            self.is_total(),
        ensures
            self.may_give(rel@, r.deep_view()),
    {
        match self {
            Select::All => Some(rel.to_owned()),
            Select::Files(files) => {
                let ghost all = files.deep_view();
                let mut i: usize = 0;
                assert(all.skip(0) =~= all);
                while i < files.len()
                    invariant
                        i <= files@.len(),
                        all == files.deep_view(),
                        listed_dest(all, rel@) == listed_dest(all.skip(i as int), rel@),
                        *self == Select::<'a, F>::Files(files),
                    decreases files@.len() - i,
                {
                    assert(all.skip(i as int).drop_first() =~= all.skip(i + 1));
                    if same(files[i].0.as_str(), rel) {
                        return Some(files[i].1.clone());
                    }
                    i += 1;
                }
                None
            },
            Select::Matching(f) => f(rel),
        }
    }

    /// Whether directories are made too.
    pub fn takes_all(&self) -> (r: bool)
        ensures
            r == (*self is All),
    {
        match self {
            Select::All => true,
            _ => false,
        }
    }
}

/// The path of an entry without the prefix, where it has it.
pub open spec fn relative_path(path: Seq<char>, prefix: Option<Seq<char>>) -> Seq<char> {
    match prefix {
        Some(p) => match stripped(path, p) {
            Some(rest) => rest,
            None => path,
        },
        None => path,
    }
}

/// The path of an entry without the prefix, where it has it.
fn strip(path: &str, prefix: Option<&str>) -> (r: String)
    ensures
        r@ == relative_path(path@, prefix.deep_view()),
{
    match prefix {
        Some(p) => match strip_prefix(path, p) {
            Some(rest) => rest,
            None => path.to_owned(),
        },
        None => path.to_owned(),
    }
}

/// Whether a path names the destination itself, which nothing may take the place of.
pub open spec fn names_root(rel: Seq<char>) -> bool {
    rel == ""@ || rel == "."@
}

/// Whether a path names the destination itself.
pub fn is_root_entry(rel: &str) -> (r: bool)
    ensures
        r == names_root(rel@),
{
    same(rel, "") || same(rel, ".")
}

/// Why an archive is not extracted, or not to its end.
#[derive(Debug, PartialEq, Eq)]
pub enum ExtractError {
    /// The archive cannot be read; the message is the reader's.
    Archive(String),
    /// There are more entries than an archive may have.
    TooManyEntries,
    /// There are more bytes than an archive may expand to.
    TooLarge,
    /// A path would lead out of the destination.
    Path(PathError),
}

/// What an [`ExtractError`] holds.
#[verifier::ext_equal]
pub enum ExtractErrorView {
    Archive(Seq<char>),
    TooManyEntries,
    TooLarge,
    Path(PathErrorView),
}

impl DeepView for ExtractError {
    type V = ExtractErrorView;

    open spec fn deep_view(&self) -> ExtractErrorView {
        match *self {
            ExtractError::Archive(m) => ExtractErrorView::Archive(m@),
            ExtractError::TooManyEntries => ExtractErrorView::TooManyEntries,
            ExtractError::TooLarge => ExtractErrorView::TooLarge,
            ExtractError::Path(e) => ExtractErrorView::Path(e.deep_view()),
        }
    }
}

/// What is said of an archive that is not extracted.
pub open spec fn extract_error_text(e: ExtractErrorView) -> Seq<char> {
    match e {
        ExtractErrorView::Archive(message) => message,
        ExtractErrorView::TooManyEntries => "archive has more than "@ + decimal_of(
            MAX_ENTRIES as nat,
        ) + " entries (possible archive bomb)"@,
        ExtractErrorView::TooLarge =>
        "archive exceeds the extraction size limit (possible decompression bomb)"@,
        ExtractErrorView::Path(e) => path_error_text(e),
    }
}

impl ExtractError {
    /// What is said of the error.
    pub fn message(&self) -> (r: String)
        ensures
            r@ == extract_error_text(self.deep_view()),
    {
        match self {
            ExtractError::Archive(message) => message.clone(),
            ExtractError::TooManyEntries => joined3(
                "archive has more than ",
                decimal(MAX_ENTRIES).as_str(),
                " entries (possible archive bomb)",
            ),
            ExtractError::TooLarge =>
            "archive exceeds the extraction size limit (possible decompression bomb)".to_owned(),
            ExtractError::Path(e) => e.message(),
        }
    }
}

/// What is to be done for an entry, which is given by its place in the archive.
#[derive(Debug, PartialEq, Eq)]
pub enum Action {
    /// Make the directory at this path under the destination.
    MakeDirectory { entry: usize, path: String },
    /// Write the entry to this path under the destination.
    WriteFile { entry: usize, path: String },
}

/// What an [`Action`] holds.
#[verifier::ext_equal]
pub enum ActionView {
    MakeDirectory { entry: int, path: Seq<char> },
    WriteFile { entry: int, path: Seq<char> },
}

impl DeepView for Action {
    type V = ActionView;

    open spec fn deep_view(&self) -> ActionView {
        match *self {
            Action::MakeDirectory { entry, path } => ActionView::MakeDirectory {
                entry: entry as int,
                path: path@,
            },
            Action::WriteFile { entry, path } => ActionView::WriteFile {
                entry: entry as int,
                path: path@,
            },
        }
    }
}

/// What is to be done for an archive: the actions in order, and the error, if any, that comes
/// after them.
#[derive(Debug)]
pub struct Plan {
    pub actions: Vec<Action>,
    pub failure: Option<ExtractError>,
}

/// What a [`Plan`] holds.
#[verifier::ext_equal]
pub struct PlanView {
    pub actions: Seq<ActionView>,
    pub failure: Option<ExtractErrorView>,
}

impl DeepView for Plan {
    type V = PlanView;

    open spec fn deep_view(&self) -> PlanView {
        PlanView { actions: self.actions.deep_view(), failure: self.failure.deep_view() }
    }
}

/// What is done for one entry: nothing, an action, or an error.
pub open spec fn entry_action(
    entry: ListedView,
    index: int,
    prefix: Option<Seq<char>>,
    dest: Option<Seq<char>>,
    all: bool,
) -> Result<Option<ActionView>, ExtractErrorView> {
    match entry {
        Err(message) => Err(ExtractErrorView::Archive(message)),
        Ok(e) => if index >= MAX_ENTRIES {
            Err(ExtractErrorView::TooManyEntries)
        } else if e.kind == EntryKind::Other {
            Ok(None)
        } else {
            match e.path {
                Err(message) => Err(ExtractErrorView::Archive(message)),
                Ok(path) => {
                    let rel = relative_path(path, prefix);
                    if names_root(rel) {
                        Ok(None)
                    } else if e.kind == EntryKind::Directory {
                        if !all {
                            Ok(None)
                        } else if is_within(rel) {
                            Ok(Some(ActionView::MakeDirectory { entry: index, path: rel }))
                        } else {
                            Err(ExtractErrorView::Path(PathErrorView::Escapes(rel)))
                        }
                    } else {
                        match dest {
                            None => Ok(None),
                            Some(d) => if is_within(d) {
                                Ok(Some(ActionView::WriteFile { entry: index, path: d }))
                            } else {
                                Err(ExtractErrorView::Path(PathErrorView::Escapes(d)))
                            },
                        }
                    }
                },
            }
        },
    }
}

/// What is to be done for a list of entries, of which `dests` gives the destinations: entry by
/// entry up to the first error.
pub open spec fn plan_of(
    entries: Seq<ListedView>,
    prefix: Option<Seq<char>>,
    dests: Seq<Option<Seq<char>>>,
    all: bool,
) -> PlanView
    decreases entries.len(),
{
    if entries.len() == 0 {
        PlanView { actions: Seq::empty(), failure: None }
    } else {
        let before = plan_of(entries.drop_last(), prefix, dests, all);
        let index = entries.len() - 1;
        if before.failure is Some {
            before
        } else {
            match entry_action(entries.last(), index, prefix, dests[index], all) {
                Ok(Some(action)) => PlanView {
                    actions: before.actions.push(action),
                    failure: None,
                },
                Ok(None) => before,
                Err(e) => PlanView { actions: before.actions, failure: Some(e) },
            }
        }
    }
}

/// The path for which the selection is asked: that of a regular file that is not the
/// destination itself.
pub open spec fn asked_path(entry: ListedView, prefix: Option<Seq<char>>) -> Option<Seq<char>> {
    match entry {
        Ok(e) => match e.path {
            Ok(path) => if e.kind == EntryKind::File && !names_root(relative_path(path, prefix)) {
                Some(relative_path(path, prefix))
            } else {
                None
            },
            Err(_) => None,
        },
        Err(_) => None,
    }
}

/// Whether `dests` are destinations that the selection gives for the entries.
pub open spec fn are_chosen<'a, F: Fn(&str) -> Option<String>>(
    select: Select<'a, F>,
    entries: Seq<ListedView>,
    prefix: Option<Seq<char>>,
    dests: Seq<Option<Seq<char>>>,
) -> bool {
    &&& dests.len() == entries.len()
    &&& forall|i: int|
        0 <= i < entries.len() ==> match asked_path(#[trigger] entries[i], prefix) {
            Some(rel) => select.may_give(rel, dests[i]),
            None => dests[i] is None,
        }
}

/// The destinations of the entries.
fn choose_dests<'a, F: Fn(&str) -> Option<String>>(
    entries: &Vec<Result<ArchiveEntry, String>>,
    prefix: Option<&str>,
    select: &Select<'a, F>,
) -> (r: Vec<Option<String>>)
    requires
        select.is_total(),
    ensures
        are_chosen(*select, listing_view(entries@), prefix.deep_view(), r.deep_view()),
{
    let ghost all = listing_view(entries@);
    let mut dests: Vec<Option<String>> = Vec::new();
    let mut i: usize = 0;
    while i < entries.len()
        invariant
            i <= entries@.len(),
            all == listing_view(entries@),
            select.is_total(),
            dests@.len() == i,
            forall|j: int|
                0 <= j < i ==> match asked_path(#[trigger] all[j], prefix.deep_view()) {
                    Some(rel) => select.may_give(rel, dests.deep_view()[j]),
                    None => dests.deep_view()[j] is None,
                },
        decreases entries@.len() - i,
    {
        let ghost before = dests.deep_view();
        assert(all[i as int] == listed(entries@[i as int]));
        let mut dest: Option<String> = None;
        match &entries[i] {
            Ok(e) => {
                match &e.path {
                    Ok(path) => {
                        let rel = strip(path.as_str(), prefix);
                        if e.kind == EntryKind::File && !is_root_entry(rel.as_str()) {
                            dest = select.dest_for(rel.as_str());
                        }
                    },
                    Err(_) => {},
                }
            },
            Err(_) => {},
        }
        let ghost d = dest.deep_view();
        dests.push(dest);
        proof {
            assert(dests.deep_view() =~= before.push(d));
        }
        i += 1;
    }
    dests
}

/// What is done for one entry.
fn action_for(
    entry: &Result<ArchiveEntry, String>,
    index: usize,
    prefix: Option<&str>,
    dest: &Option<String>,
    all: bool,
) -> (r: Result<Option<Action>, ExtractError>)
    ensures
        match r {
            Ok(action) => entry_action(
                listed(*entry),
                index as int,
                prefix.deep_view(),
                dest.deep_view(),
                all,
            ) == Ok::<Option<ActionView>, ExtractErrorView>(action.deep_view()),
            Err(e) => entry_action(
                listed(*entry),
                index as int,
                prefix.deep_view(),
                dest.deep_view(),
                all,
            ) == Err::<Option<ActionView>, ExtractErrorView>(e.deep_view()),
        },
{
    match entry {
        Err(message) => Err(ExtractError::Archive(message.clone())),
        Ok(e) => {
            if (index as u64) >= MAX_ENTRIES {
                return Err(ExtractError::TooManyEntries);
            }
            if e.kind == EntryKind::Other {
                return Ok(None);
            }
            match &e.path {
                Err(message) => Err(ExtractError::Archive(message.clone())),
                Ok(path) => {
                    let rel = strip(path.as_str(), prefix);
                    if is_root_entry(rel.as_str()) {
                        return Ok(None);
                    }
                    if e.kind == EntryKind::Directory {
                        if !all {
                            return Ok(None);
                        }
                        return match ensure_within(rel.as_str()) {
                            Ok(_) => Ok(Some(Action::MakeDirectory { entry: index, path: rel })),
                            Err(e) => Err(ExtractError::Path(e)),
                        };
                    }
                    match dest {
                        None => Ok(None),
                        Some(d) => match ensure_within(d.as_str()) {
                            Ok(_) => Ok(
                                Some(Action::WriteFile { entry: index, path: d.clone() }),
                            ),
                            Err(e) => Err(ExtractError::Path(e)),
                        },
                    }
                },
            }
        },
    }
}

/// An error among the first entries is the error of all.
proof fn lemma_plan_fails(
    entries: Seq<ListedView>,
    prefix: Option<Seq<char>>,
    dests: Seq<Option<Seq<char>>>,
    all: bool,
    n: int,
)
    requires
        0 <= n <= entries.len(),
        plan_of(entries.take(n), prefix, dests, all).failure is Some,
    ensures
        plan_of(entries, prefix, dests, all) == plan_of(entries.take(n), prefix, dests, all),
    decreases entries.len() - n,
{
    if n < entries.len() {
        assert(entries.take(n + 1).drop_last() =~= entries.take(n));
        lemma_plan_fails(entries, prefix, dests, all, n + 1);
    } else {
        assert(entries.take(n) =~= entries);
    }
}

/// What is to be done for a list of entries, of which `dests` gives the destinations.
pub fn plan_entries(
    entries: &Vec<Result<ArchiveEntry, String>>,
    prefix: Option<&str>,
    dests: &Vec<Option<String>>,
    all: bool,
) -> (r: Plan)
    requires
        dests@.len() == entries@.len(),
    ensures
        r.deep_view() == plan_of(
            listing_view(entries@),
            prefix.deep_view(),
            dests.deep_view(),
            all,
        ),
{
    let ghost list = listing_view(entries@);
    let ghost p = prefix.deep_view();
    let ghost d = dests.deep_view();
    let mut actions: Vec<Action> = Vec::new();
    let mut i: usize = 0;
    assert(actions.deep_view() =~= Seq::<ActionView>::empty());
    while i < entries.len()
        invariant
            i <= entries@.len(),
            dests@.len() == entries@.len(),
            list == listing_view(entries@),
            p == prefix.deep_view(),
            d == dests.deep_view(),
            plan_of(list.take(i as int), p, d, all) == (PlanView {
                actions: actions.deep_view(),
                failure: None,
            }),
        decreases entries@.len() - i,
    {
        let ghost done = actions.deep_view();
        proof {
            assert(list.take(i + 1).drop_last() =~= list.take(i as int));
            assert(list[i as int] == listed(entries@[i as int]));
        }
        match action_for(&entries[i], i, prefix, &dests[i], all) {
            Ok(Some(action)) => {
                let ghost v = action.deep_view();
                actions.push(action);
                assert(actions.deep_view() =~= done.push(v));
            },
            Ok(None) => {},
            Err(e) => {
                proof {
                    lemma_plan_fails(list, p, d, all, i + 1);
                }
                return Plan { actions, failure: Some(e) };
            },
        }
        i += 1;
    }
    assert(list.take(list.len() as int) =~= list);
    Plan { actions, failure: None }
}

/// A plan of which the archive cannot be read.
pub open spec fn failed_plan(e: ExtractErrorView) -> PlanView {
    PlanView { actions: Seq::empty(), failure: Some(e) }
}

/// A plan without actions.
fn no_plan(e: ExtractError) -> (r: Plan)
    ensures
        r.deep_view() == failed_plan(e.deep_view()),
{
    let r = Plan { actions: Vec::new(), failure: Some(e) };
    assert(r.actions.deep_view() =~= Seq::<ActionView>::empty());
    r
}

/// The entries of a gzipped tarball, or why there are none.
pub open spec fn tar_entries_of(bytes: Seq<u8>) -> Result<Seq<TarredView>, ExtractErrorView> {
    if gz_content(bytes).len() >= 0x8000_0000_0000_0000 {
        Err(ExtractErrorView::TooLarge)
    } else {
        match listing_from(bytes, 0, (MAX_ENTRIES + 1) as nat) {
            Ok(entries) => Ok(entries),
            Err(message) => Err(ExtractErrorView::Archive(message)),
        }
    }
}

/// Whether `plan` is what is to be done for a gzipped tarball.
pub open spec fn is_tar_plan<'a, F: Fn(&str) -> Option<String>>(
    plan: PlanView,
    bytes: Seq<u8>,
    prefix: Option<Seq<char>>,
    select: Select<'a, F>,
) -> bool {
    match tar_entries_of(bytes) {
        Ok(entries) => exists|dests: Seq<Option<Seq<char>>>| #[trigger]
            are_chosen(select, untarred_all(entries), prefix, dests) && plan == plan_of(
                untarred_all(entries),
                prefix,
                dests,
                select is All,
            ),
        Err(e) => plan == failed_plan(e),
    }
}

/// What is to be done for a gzipped tarball: `strip_prefix` is taken off the paths of its
/// entries before the selection is asked for their destinations.
pub fn tar_gz<'a, F: Fn(&str) -> Option<String>>(
    bytes: &[u8],
    strip_prefix: Option<&str>,
    select: &Select<'a, F>,
) -> (r: Plan)
    requires
        select.is_total(),
    ensures
        is_tar_plan(r.deep_view(), bytes@, strip_prefix.deep_view(), *select),
{
    match list_entries(bytes) {
        Ok(entries) => {
            let entries = tar_entries(entries);
            let dests = choose_dests(&entries, strip_prefix, select);
            plan_entries(&entries, strip_prefix, &dests, select.takes_all())
        },
        Err(e) => no_plan(e),
    }
}

/// Whether `plan` is what is to be done for a zip archive.
pub open spec fn is_zip_plan<'a, F: Fn(&str) -> Option<String>>(
    plan: PlanView,
    bytes: Seq<u8>,
    prefix: Option<Seq<char>>,
    select: Select<'a, F>,
) -> bool {
    match zip_listing(bytes) {
        Ok(entries) => if entries.len() > MAX_ENTRIES {
            plan == failed_plan(ExtractErrorView::TooManyEntries)
        } else {
            exists|dests: Seq<Option<Seq<char>>>| #[trigger]
                are_chosen(select, unzipped_all(entries, select is All), prefix, dests) && plan
                    == plan_of(unzipped_all(entries, select is All), prefix, dests, select is All)
        },
        Err(message) => plan == failed_plan(ExtractErrorView::Archive(message)),
    }
}

/// What is to be done for a zip archive.
pub fn zip<'a, F: Fn(&str) -> Option<String>>(
    bytes: &[u8],
    strip_prefix: Option<&str>,
    select: &Select<'a, F>,
) -> (r: Plan)
    requires
        select.is_total(),
    ensures
        is_zip_plan(r.deep_view(), bytes@, strip_prefix.deep_view(), *select),
{
    match list_zip(bytes) {
        Ok(entries) => {
            if entries.len() as u64 > MAX_ENTRIES {
                return no_plan(ExtractError::TooManyEntries);
            }
            let entries = zip_entries(entries, select.takes_all());
            let dests = choose_dests(&entries, strip_prefix, select);
            plan_entries(&entries, strip_prefix, &dests, select.takes_all())
        },
        Err(message) => no_plan(ExtractError::Archive(message)),
    }
}

/// How many bytes may still be written after `total`.
pub fn remaining_budget(total: u64) -> (r: u64)
    ensures
        r == (if total >= MAX_TOTAL_BYTES {
            0
        } else {
            MAX_TOTAL_BYTES - total
        }),
{
    if total >= MAX_TOTAL_BYTES {
        0
    } else {
        MAX_TOTAL_BYTES - total
    }
}

/// How many bytes to read of an entry, so that one beyond the budget shows.
pub fn read_limit(budget: u64) -> (r: u64)
    ensures
        r == (if budget == u64::MAX {
            budget as int
        } else {
            budget + 1
        }),
{
    if budget == u64::MAX {
        budget
    } else {
        budget + 1
    }
}

/// The total after an entry of `written` bytes, or an error where that is beyond the budget.
pub fn count_written(total: u64, written: u64) -> (r: Result<u64, ExtractError>)
    requires
        total <= MAX_TOTAL_BYTES,
    ensures
        match r {
            Ok(sum) => sum == total + written && sum <= MAX_TOTAL_BYTES,
            Err(e) => total + written > MAX_TOTAL_BYTES && e.deep_view()
                == ExtractErrorView::TooLarge,
        },
{
    if written > remaining_budget(total) {
        Err(ExtractError::TooLarge)
    } else {
        Ok(total + written)
    }
}

/// The path of an action.
pub open spec fn action_path(action: ActionView) -> Seq<char> {
    match action {
        ActionView::MakeDirectory { entry, path } => path,
        ActionView::WriteFile { entry, path } => path,
    }
}

/// The entry of an action.
pub open spec fn action_entry(action: ActionView) -> int {
    match action {
        ActionView::MakeDirectory { entry, path } => entry,
        ActionView::WriteFile { entry, path } => entry,
    }
}

/// Whatever an archive holds, every path that is written or made stays within the destination;
/// every action is for a regular file or a directory, each entry has one at most, and there
/// are no more than an archive may have entries.
pub proof fn plans_are_contained(
    entries: Seq<ListedView>,
    prefix: Option<Seq<char>>,
    dests: Seq<Option<Seq<char>>>,
    all: bool,
)
    ensures
        ({
            let actions = plan_of(entries, prefix, dests, all).actions;
            &&& actions.len() <= MAX_ENTRIES
            &&& actions.len() <= entries.len()
            &&& forall|i: int|
                0 <= i < actions.len() ==> is_within(action_path(#[trigger] actions[i]))
            &&& forall|i: int|
                0 <= i < actions.len() ==> 0 <= action_entry(#[trigger] actions[i])
                    < entries.len() && action_entry(actions[i]) < MAX_ENTRIES && (
                entries[action_entry(actions[i])] matches Ok(e) && (match actions[i] {
                    ActionView::MakeDirectory { .. } => e.kind == EntryKind::Directory,
                    ActionView::WriteFile { .. } => e.kind == EntryKind::File,
                }))
            &&& forall|i: int, j: int|
                0 <= i < j < actions.len() ==> action_entry(#[trigger] actions[i]) < action_entry(
                    #[trigger] actions[j],
                )
        }),
    decreases entries.len(),
{
    if entries.len() > 0 {
        let front = entries.drop_last();
        plans_are_contained(front, prefix, dests, all);
        let before = plan_of(front, prefix, dests, all);
        let after = plan_of(entries, prefix, dests, all);
        let index = entries.len() - 1;
        if before.failure is None && entry_action(
            entries.last(),
            index,
            prefix,
            dests[index],
            all,
        ) is Ok {
            lemma_no_more_actions(front, prefix, dests, all);
            assert forall|i: int| 0 <= i < after.actions.len() implies 0 <= action_entry(
                #[trigger] after.actions[i],
            ) < entries.len() && action_entry(after.actions[i]) < MAX_ENTRIES && (
            entries[action_entry(after.actions[i])] matches Ok(e) && (match after.actions[i] {
                ActionView::MakeDirectory { .. } => e.kind == EntryKind::Directory,
                ActionView::WriteFile { .. } => e.kind == EntryKind::File,
            })) by {
                if i < before.actions.len() {
                    assert(after.actions[i] == before.actions[i]);
                    assert(entries[action_entry(before.actions[i])] == front[action_entry(
                        before.actions[i],
                    )]);
                }
            }
        } else {
            assert forall|i: int| 0 <= i < after.actions.len() implies 0 <= action_entry(
                #[trigger] after.actions[i],
            ) < entries.len() && action_entry(after.actions[i]) < MAX_ENTRIES && (
            entries[action_entry(after.actions[i])] matches Ok(e) && (match after.actions[i] {
                ActionView::MakeDirectory { .. } => e.kind == EntryKind::Directory,
                ActionView::WriteFile { .. } => e.kind == EntryKind::File,
            })) by {
                assert(after.actions[i] == before.actions[i]);
                assert(entries[action_entry(before.actions[i])] == front[action_entry(
                    before.actions[i],
                )]);
            }
        }
    }
}

/// There are at most as many actions as entries.
proof fn lemma_no_more_actions(
    entries: Seq<ListedView>,
    prefix: Option<Seq<char>>,
    dests: Seq<Option<Seq<char>>>,
    all: bool,
)
    ensures
        plan_of(entries, prefix, dests, all).actions.len() <= entries.len(),
    decreases entries.len(),
{
    if entries.len() > 0 {
        lemma_no_more_actions(entries.drop_last(), prefix, dests, all);
    }
}

} // verus!
