//! The check of downloaded tarballs against their pinned `sha512-<base64>` digests.
//!
//! A pin without a sha512 digest is an error: nothing is taken unverified.

use crate::text::{joined3, strip_prefix, stripped, words, words_of};
use base64::Engine;
use sha2::Digest;
use vstd::prelude::*;
use vstd::string::*;

verus! {

/// What the standard alphabet of `base64` decodes a text to: the bytes, or the message of
/// the error.
pub uninterp spec fn base64_reading(text: Seq<char>) -> Result<Seq<u8>, Seq<char>>;

/// What the standard alphabet of `base64` encodes bytes as.
pub uninterp spec fn base64_text(bytes: Seq<u8>) -> Seq<char>;

/// The SHA-512 digest of bytes.
pub uninterp spec fn sha512_of(bytes: Seq<u8>) -> Seq<u8>;

/// Decodes with `base64::engine::general_purpose::STANDARD`, which depends on the text
/// alone.
#[verifier::external_body]
pub(crate) fn decode_base64(text: &str) -> (r: Result<Vec<u8>, String>)
    ensures
        match r {
            Ok(bytes) => base64_reading(text@) == Ok::<Seq<u8>, Seq<char>>(bytes@),
            Err(message) => base64_reading(text@) == Err::<Seq<u8>, Seq<char>>(message@),
        },
{
    base64::engine::general_purpose::STANDARD.decode(text).map_err(|e| e.to_string())
}

/// Encodes with `base64::engine::general_purpose::STANDARD`, which depends on the bytes
/// alone and which the same engine decodes again.
#[verifier::external_body]
fn encode_base64(bytes: &[u8]) -> (r: String)
    ensures
        r@ == base64_text(bytes@),
        base64_reading(r@) is Ok && base64_reading(r@)->Ok_0 == bytes@,
{
    base64::engine::general_purpose::STANDARD.encode(bytes)
}

/// Calls `sha2::Sha512::digest`: sixty-four bytes that depend on `bytes` alone.
#[verifier::external_body]
fn sha512(bytes: &[u8]) -> (r: Vec<u8>)
    ensures
        r@ == sha512_of(bytes@),
        r@.len() == 64,
{
    sha2::Sha512::digest(bytes).to_vec()
}

/// Why bytes are not taken.
#[derive(Debug, PartialEq, Eq)]
pub enum IntegrityError {
    /// The pin of the package holds no sha512 digest.
    Missing { name: String },
    /// The sha512 digest of the package is no base64; the problem is the decoder's.
    Malformed { name: String, problem: String },
    /// The bytes of the package have another digest.
    Mismatch { name: String },
}

/// What an [`IntegrityError`] holds.
#[verifier::ext_equal]
pub enum IntegrityErrorView {
    Missing { name: Seq<char> },
    Malformed { name: Seq<char>, problem: Seq<char> },
    Mismatch { name: Seq<char> },
}

impl DeepView for IntegrityError {
    type V = IntegrityErrorView;

    open spec fn deep_view(&self) -> IntegrityErrorView {
        match *self {
            IntegrityError::Missing { name } => IntegrityErrorView::Missing { name: name@ },
            IntegrityError::Malformed { name, problem } => IntegrityErrorView::Malformed {
                name: name@,
                problem: problem@,
            },
            IntegrityError::Mismatch { name } => IntegrityErrorView::Mismatch { name: name@ },
        }
    }
}

/// What is said of bytes that are not taken.
pub open spec fn integrity_error_text(e: IntegrityErrorView) -> Seq<char> {
    match e {
        IntegrityErrorView::Missing { name } => "package `"@ + name
            + "`: no sha512 integrity to verify against"@,
        IntegrityErrorView::Malformed { name, problem } => "package `"@ + name
            + "`: malformed sha512 integrity: "@ + problem,
        IntegrityErrorView::Mismatch { name } => "package `"@ + name
            + "`: integrity mismatch — the downloaded tarball does not match the expected sha512"@,
    }
}

impl IntegrityError {
    /// What is said of the error.
    pub fn message(&self) -> (r: String)
        ensures
            r@ == integrity_error_text(self.deep_view()),
    {
        match self {
            IntegrityError::Missing { name } => joined3(
                "package `",
                name.as_str(),
                "`: no sha512 integrity to verify against",
            ),
            IntegrityError::Malformed { name, problem } => {
                let mut out = joined3(
                    "package `",
                    name.as_str(),
                    "`: malformed sha512 integrity: ",
                );
                out.append(problem.as_str());
                out
            },
            IntegrityError::Mismatch { name } => joined3(
                "package `",
                name.as_str(),
                "`: integrity mismatch — the downloaded tarball does not match the expected sha512",
            ),
        }
    }
}

/// The first of the words that is a sha512 digest, without the `sha512-` before it.
pub open spec fn first_sha512(ws: Seq<Seq<char>>) -> Option<Seq<char>>
    decreases ws.len(),
{
    if ws.len() == 0 {
        None
    } else {
        match stripped(ws[0], "sha512-"@) {
            Some(digest) => Some(digest),
            None => first_sha512(ws.drop_first()),
        }
    }
}

/// The sha512 digest that an integrity string pins, in base64.
pub open spec fn pinned_digest(integrity: Seq<char>) -> Option<Seq<char>> {
    first_sha512(words_of(integrity))
}

/// The check of bytes against an integrity string: the decoded pin has to be their digest.
pub open spec fn checked(name: Seq<char>, bytes: Seq<u8>, integrity: Seq<char>) -> Result<
    (),
    IntegrityErrorView,
> {
    match pinned_digest(integrity) {
        None => Err(IntegrityErrorView::Missing { name }),
        Some(digest) => match base64_reading(digest) {
            Err(problem) => Err(IntegrityErrorView::Malformed { name, problem }),
            Ok(expected) => if expected == sha512_of(bytes) {
                Ok(())
            } else {
                Err(IntegrityErrorView::Mismatch { name })
            },
        },
    }
}

/// The check of bytes against an integrity string by its text: the pin has to be the base64
/// of their digest.
pub open spec fn checked_by_text(
    name: Seq<char>,
    bytes: Seq<u8>,
    integrity: Seq<char>,
) -> Result<(), IntegrityErrorView> {
    match pinned_digest(integrity) {
        None => Err(IntegrityErrorView::Missing { name }),
        Some(digest) => if digest == base64_text(sha512_of(bytes)) {
            Ok(())
        } else {
            Err(IntegrityErrorView::Mismatch { name })
        },
    }
}

/// The sha512 digest that an integrity string pins, in base64.
fn find_digest(integrity: &str) -> (r: Option<String>)
    ensures
        r.deep_view() == pinned_digest(integrity@),
{
    let tokens = words(integrity);
    let ghost ws = tokens.deep_view();
    let mut i: usize = 0;
    assert(ws.skip(0) =~= ws);
    while i < tokens.len()
        invariant
            i <= tokens.len(),
            ws == tokens.deep_view(),
            ws == words_of(integrity@),
            first_sha512(ws) == first_sha512(ws.skip(i as int)),
        decreases tokens.len() - i,
    {
        assert(ws.skip(i as int).drop_first() =~= ws.skip(i + 1));
        if let Some(digest) = strip_prefix(tokens[i].as_str(), "sha512-") {
            return Some(digest);
        }
        i += 1;
    }
    None
}

/// Whether two byte sequences are the same.
fn same_bytes(a: &[u8], b: &[u8]) -> (r: bool)
    ensures
        r == (a@ == b@),
{
    if a.len() != b.len() {
        return false;
    }
    let mut i: usize = 0;
    while i < a.len()
        invariant
            i <= a.len(),
            a.len() == b.len(),
            forall|j: int| 0 <= j < i ==> a@[j] == b@[j],
        decreases a.len() - i,
    {
        if a[i] != b[i] {
            return false;
        }
        i += 1;
    }
    assert(a@ =~= b@);
    true
}

/// Checks `bytes` against an integrity string: `sha512-<base64>`, or several digests with
/// white space between them, of which the first sha512 one counts. The digests themselves
/// are compared, not their notations.
pub fn verify(name: &str, bytes: &[u8], integrity: &str) -> (r: Result<(), IntegrityError>)
    ensures
        match r {
            Ok(_) => checked(name@, bytes@, integrity@) is Ok,
            Err(e) => checked(name@, bytes@, integrity@) == Err::<(), IntegrityErrorView>(
                e.deep_view(),
            ),
        },
{
    match find_digest(integrity) {
        None => Err(IntegrityError::Missing { name: name.to_owned() }),
        Some(digest) => match decode_base64(digest.as_str()) {
            Err(problem) => Err(IntegrityError::Malformed { name: name.to_owned(), problem }),
            Ok(expected) => {
                if same_bytes(&expected, &sha512(bytes)) {
                    Ok(())
                } else {
                    Err(IntegrityError::Mismatch { name: name.to_owned() })
                }
            },
        },
    }
}

/// Checks `bytes` against an integrity string by the notation of the digest. What passes
/// here passes [`verify`] too.
pub fn verify_integrity(name: &str, bytes: &[u8], integrity: &str) -> (r: Result<
    (),
    IntegrityError,
>)
    ensures
        match r {
            Ok(_) => checked_by_text(name@, bytes@, integrity@) is Ok,
            Err(e) => checked_by_text(name@, bytes@, integrity@) == Err::<(), IntegrityErrorView>(
                e.deep_view(),
            ),
        },
        r is Ok ==> checked(name@, bytes@, integrity@) is Ok,
{
    match find_digest(integrity) {
        None => Err(IntegrityError::Missing { name: name.to_owned() }),
        Some(digest) => {
            let actual = encode_base64(&sha512(bytes));
            if actual == digest {
                Ok(())
            } else {
                Err(IntegrityError::Mismatch { name: name.to_owned() })
            }
        },
    }
}

/// Two payloads with different digests never pass the same pin.
pub proof fn a_pin_admits_one_digest(
    name: Seq<char>,
    bytes: Seq<u8>,
    other: Seq<u8>,
    integrity: Seq<char>,
)
    requires
        checked(name, bytes, integrity) is Ok,
    ensures
        checked(name, other, integrity) is Ok <==> sha512_of(other) == sha512_of(bytes),
{
}

} // verus!
