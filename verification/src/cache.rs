//! Caches that skip work when nothing has changed: content hashes, markers, a lock between
//! processes, and how a directory is cleared.

use crate::text::{digit, digit_char, same, trim, trimmed};
use vstd::arithmetic::div_mod::{lemma_add_mod_noop, lemma_mul_mod_noop};
use vstd::prelude::*;
use vstd::string::*;

verus! {

/// The sum of the bytes, each weighted by its place, which is counted from one.
pub open spec fn weighted_sum(bytes: Seq<u8>) -> nat
    decreases bytes.len(),
{
    if bytes.len() == 0 {
        0
    } else {
        weighted_sum(bytes.drop_last()) + bytes.last() as nat * bytes.len()
    }
}

/// The last `n` hexadecimal digits of `value`, with leading zeros.
pub open spec fn hex_digits(value: nat, n: nat) -> Seq<char>
    decreases n,
{
    if n == 0 {
        Seq::empty()
    } else {
        hex_digits(value / 16, (n - 1) as nat).push(digit(value % 16))
    }
}

/// The hash of contents: the weighted sum of the bytes as far as sixty-four bits hold it, in
/// sixteen hexadecimal digits.
pub open spec fn hash_text(bytes: Seq<u8>) -> Seq<char> {
    hex_digits(weighted_sum(bytes) % 0x1_0000_0000_0000_0000, 16)
}

/// The last `n` hexadecimal digits of `value`, with leading zeros.
fn hex(value: u64, n: u8) -> (r: String)
    ensures
        r@ == hex_digits(value as nat, n as nat),
    decreases n,
{
    if n == 0 {
        let out = String::new();
        assert(out@ =~= Seq::<char>::empty());
        out
    } else {
        let mut out = hex(value / 16, n - 1);
        out.push(digit_char((value % 16) as u8));
        out
    }
}

/// A fast hash of contents, by which a change shows. It is no guard against one that is meant
/// not to show.
pub fn file_hash(contents: &[u8]) -> (r: String)
    ensures
        r@ == hash_text(contents@),
{
    let mut hash: u64 = 0;
    let mut i: usize = 0;
    while i < contents.len()
        invariant
            i <= contents@.len(),
            hash as nat == weighted_sum(contents@.take(i as int)) % 0x1_0000_0000_0000_0000,
        decreases contents@.len() - i,
    {
        let byte = contents[i] as u64;
        let weight: u64 = (i as u64).wrapping_add(1);
        let term: u64 = byte.wrapping_mul(weight);
        proof {
            let m = 0x1_0000_0000_0000_0000int;
            let front = contents@.take(i as int);
            let next = contents@.take(i + 1);
            assert(next.drop_last() =~= front);
            assert(next.last() == contents@[i as int]);
            let exact = byte as int * (i + 1);
            assert(weight as int == (i + 1) % m);
            assert(term as int == (byte as int * weight as int) % m);
            lemma_mul_mod_noop(byte as int, i + 1, m);
            assert((byte as int * ((i + 1) % m)) % m == exact % m) by {
                vstd::arithmetic::div_mod::lemma_mul_mod_noop_right(byte as int, i + 1, m);
            }
            lemma_add_mod_noop(weighted_sum(front) as int, exact, m);
        }
        hash = hash.wrapping_add(term);
        i += 1;
    }
    assert(contents@.take(contents@.len() as int) =~= contents@);
    hex(hash, 16)
}

/// Whether a marker that holds `content`, if it could be read, is for the hash `expected`.
pub fn marker_matches(content: Option<&str>, expected: &str) -> (r: bool)
    ensures
        r == (match content {
            Some(text) => trimmed(text@) == expected@,
            None => false,
        }),
{
    match content {
        Some(text) => same(trim(text).as_str(), expected),
        None => false,
    }
}

/// After how many seconds a lock counts as left behind.
pub const STALE_LOCK_SECS: u64 = 600;

/// How many milliseconds to wait for a lock before looking again.
pub const LOCK_WAIT_MS: u64 = 200;

/// Whether a lock of this age, in seconds and nanoseconds, was left behind. One of unknown age
/// was not: its holder may be at work.
pub fn lock_is_stale(age: Option<(u64, u32)>) -> (r: bool)
    ensures
        r == (match age {
            Some((secs, nanos)) => secs > STALE_LOCK_SECS || (secs == STALE_LOCK_SECS && nanos > 0),
            None => false,
        }),
{
    match age {
        Some((secs, nanos)) => secs > STALE_LOCK_SECS || (secs == STALE_LOCK_SECS && nanos > 0),
        None => false,
    }
}

/// What came of the try to make a lock file.
#[derive(Debug, Clone, Copy, PartialEq, Eq)]
pub enum LockEvent {
    /// It was made.
    Created,
    /// There is one, of this age where that is known.
    Exists(Option<(u64, u32)>),
    /// It cannot be made.
    Failed,
}

/// What to do for a lock.
#[derive(Debug, Clone, Copy, PartialEq, Eq, Structural)]
pub enum LockAction {
    /// Do the work and remove the lock file.
    Work,
    /// Remove the lock file, which was left behind, and try again at once.
    Reclaim,
    /// Wait this many milliseconds and try again.
    Wait(u64),
    /// Give up.
    Abort,
}

/// What to do after the try to make a lock file.
pub fn with_lock(event: LockEvent) -> (r: LockAction)
    ensures
        r == (match event {
            LockEvent::Created => LockAction::Work,
            LockEvent::Exists(Some((secs, nanos))) => if secs > STALE_LOCK_SECS || (secs
                == STALE_LOCK_SECS && nanos > 0) {
                LockAction::Reclaim
            } else {
                LockAction::Wait(LOCK_WAIT_MS)
            },
            LockEvent::Exists(None) => LockAction::Wait(LOCK_WAIT_MS),
            LockEvent::Failed => LockAction::Abort,
        }),
{
    match event {
        LockEvent::Created => LockAction::Work,
        LockEvent::Exists(age) => {
            if lock_is_stale(age) {
                LockAction::Reclaim
            } else {
                LockAction::Wait(LOCK_WAIT_MS)
            }
        },
        LockEvent::Failed => LockAction::Abort,
    }
}

/// Whether an operating system says with this number that a directory is not empty.
pub fn is_not_empty_error(code: Option<i32>) -> (r: bool)
    ensures
        r == (code == Some(39i32) || code == Some(66i32)),
{
    match code {
        Some(n) => n == 39 || n == 66,
        None => false,
    }
}

/// How often the removal of a directory is tried again.
pub const MAX_CLEAR_RETRIES: u32 = 5;

/// Two to the power of `n`.
pub open spec fn doubled(n: nat) -> nat
    decreases n,
{
    if n == 0 {
        1
    } else {
        2 * doubled((n - 1) as nat)
    }
}

/// The removal of a directory that other processes may still write to: it is tried again a few
/// times, after longer and longer waits.
#[derive(Debug)]
pub struct ClearRetry {
    attempts: u32,
    delay_ms: u64,
}

impl ClearRetry {
    #[verifier::type_invariant]
    closed spec fn well_formed(self) -> bool {
        self.attempts <= MAX_CLEAR_RETRIES && self.delay_ms == 50 * doubled(self.attempts as nat)
            && self.delay_ms <= 1600
    }

    /// How often the removal was tried again.
    pub closed spec fn retries(&self) -> nat {
        self.attempts as nat
    }

    /// A removal that was not tried again yet.
    pub fn new() -> (r: ClearRetry)
        ensures
            r.retries() == 0,
    {
        ClearRetry { attempts: 0, delay_ms: 50 }
    }

    /// How many milliseconds to wait before the removal is tried again, or nothing where the
    /// error stands: it is tried again only while the directory is said not to be empty, and
    /// five times at most. The wait starts at fifty milliseconds and doubles each time.
    pub fn next_delay(&mut self, code: Option<i32>) -> (r: Option<u64>)
        ensures
            old(self).retries() <= MAX_CLEAR_RETRIES,
            if (code == Some(39i32) || code == Some(66i32)) && old(self).retries()
                < MAX_CLEAR_RETRIES {
                r is Some && r->Some_0 == 50 * doubled(old(self).retries())
                    && final(self).retries() == old(self).retries() + 1
            } else {
                r is None && final(self).retries() == old(self).retries()
            },
    {
        proof {
            use_type_invariant(&*self);
        }
        if is_not_empty_error(code) && self.attempts < MAX_CLEAR_RETRIES {
            let delay: u64 = self.delay_ms;
            let attempts: u32 = self.attempts + 1;
            proof {
                reveal_with_fuel(doubled, 7);
                assert(doubled(attempts as nat) == 2 * doubled(self.attempts as nat));
            }
            *self = ClearRetry { attempts, delay_ms: delay * 2 };
            Some(delay)
        } else {
            None
        }
    }
}

/// How many numbers `n` hexadecimal digits can tell apart.
pub open spec fn hex_range(n: nat) -> nat
    decreases n,
{
    if n == 0 {
        1
    } else {
        16 * hex_range((n - 1) as nat)
    }
}

proof fn lemma_hex_digits_tell(a: nat, b: nat, n: nat)
    requires
        a < hex_range(n),
        b < hex_range(n),
        hex_digits(a, n) == hex_digits(b, n),
    ensures
        a == b,
    decreases n,
{
    if n > 0 {
        let x = hex_digits(a, n);
        let y = hex_digits(b, n);
        let m = (n - 1) as nat;
        assert(x.drop_last() =~= hex_digits(a / 16, m));
        assert(y.drop_last() =~= hex_digits(b / 16, m));
        assert(x.last() == digit(a % 16) && y.last() == digit(b % 16));
        assert(a % 16 == b % 16);
        lemma_hex_digits_tell(a / 16, b / 16, m);
    }
}

proof fn lemma_changed_sum(bytes: Seq<u8>, i: int, b: u8)
    requires
        0 <= i < bytes.len(),
    ensures
        weighted_sum(bytes.update(i, b)) - weighted_sum(bytes) == (b - bytes[i]) * (i + 1),
    decreases bytes.len(),
{
    let changed = bytes.update(i, b);
    if i == bytes.len() - 1 {
        assert(changed.drop_last() =~= bytes.drop_last());
        assert(b as int * (i + 1) - bytes[i] as int * (i + 1) == (b - bytes[i]) * (i + 1))
            by (nonlinear_arith);
    } else {
        lemma_changed_sum(bytes.drop_last(), i, b);
        assert(changed.drop_last() =~= bytes.drop_last().update(i, b));
        assert(changed.last() == bytes.last());
    }
}

/// One byte that is changed shows in the hash.
pub proof fn a_changed_byte_shows(bytes: Seq<u8>, i: int, b: u8)
    requires
        0 <= i < bytes.len(),
        bytes.len() <= 0x100_0000_0000_0000,
        b != bytes[i],
    ensures
        hash_text(bytes.update(i, b)) != hash_text(bytes),
{
    let m: nat = 0x1_0000_0000_0000_0000;
    let x = weighted_sum(bytes);
    let y = weighted_sum(bytes.update(i, b));
    lemma_changed_sum(bytes, i, b);
    let d = (b - bytes[i]) * (i + 1);
    assert(d != 0 && -(m as int) < d < m as int) by (nonlinear_arith)
        requires
            d == (b - bytes[i]) * (i + 1),
            b != bytes[i],
            0 <= i < 0x100_0000_0000_0000,
            m == 0x1_0000_0000_0000_0000,
    ;
    if hash_text(bytes.update(i, b)) == hash_text(bytes) {
        assert(hex_range(16) == m) by {
            reveal_with_fuel(hex_range, 17);
        }
        lemma_hex_digits_tell(x % m, y % m, 16);
        assert(y == x + d);
        assert(x % 0x1_0000_0000_0000_0000 == y % 0x1_0000_0000_0000_0000);
        assert(d == 0);
    }
}

} // verus!
