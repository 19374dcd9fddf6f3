//! Session store: the marker file that records the one active blocking
//! session. The caller reads and writes the marker file itself; the logic
//! here decides what its path is, what its content means, and how a found
//! marker is treated when a session begins.

use vstd::prelude::*;
use vstd::string::StringExecFns;

verus! {

/// What `begin` finds: a live session already running, a stale marker to be
/// discarded before proceeding, or no marker at all.
#[derive(Debug, PartialEq, Eq, Structural, Clone, Copy)]
pub enum BeginOutcome {
    AlreadyActive,
    StaleMarker,
    Fresh,
}

/// How a session start treats a found marker: a marker whose process is
/// still alive rejects the start; a marker without a live process is stale
/// and is discarded; no marker lets the session proceed.
pub fn begin_outcome(marker_exists: bool, process_alive: bool) -> (r: BeginOutcome)
    ensures
        r == (if marker_exists && process_alive {
            BeginOutcome::AlreadyActive
        } else if marker_exists {
            BeginOutcome::StaleMarker
        } else {
            BeginOutcome::Fresh
        }),
{
    if marker_exists && process_alive {
        BeginOutcome::AlreadyActive
    } else if marker_exists {
        BeginOutcome::StaleMarker
    } else {
        BeginOutcome::Fresh
    }
}

/// The marker file's path: `<log_directory>/focus.pid`.
pub fn pid_file_path(log_directory: &str) -> (r: String)
    ensures
        r@ == log_directory@ + "/focus.pid"@,
{
    let mut s = String::from_str(log_directory);
    s.append("/focus.pid");
    s
}

/// An ASCII whitespace byte, as trimming treats it.
pub open spec fn is_ws_byte(b: u8) -> bool {
    b == 32 || b == 9 || b == 10 || b == 13
}

/// An ASCII decimal digit byte.
pub open spec fn is_digit_byte(b: u8) -> bool {
    48 <= b <= 57
}

/// The number the decimal digits `s` denote.
pub open spec fn digits_value(s: Seq<u8>) -> nat
    decreases s.len(),
{
    if s.len() == 0 {
        0
    } else {
        digits_value(s.drop_last()) * 10 + (s.last() - 48) as nat
    }
}

/// `s` without leading whitespace.
pub open spec fn trim_start_spec(s: Seq<u8>) -> Seq<u8>
    decreases s.len(),
{
    if s.len() > 0 && is_ws_byte(s[0]) {
        trim_start_spec(s.drop_first())
    } else {
        s
    }
}

/// `s` without trailing whitespace.
pub open spec fn trim_end_spec(s: Seq<u8>) -> Seq<u8>
    decreases s.len(),
{
    if s.len() > 0 && is_ws_byte(s.last()) {
        trim_end_spec(s.drop_last())
    } else {
        s
    }
}

/// `s` without surrounding whitespace.
pub open spec fn trimmed(s: Seq<u8>) -> Seq<u8> {
    trim_end_spec(trim_start_spec(s))
}

/// What a marker file's content means: after trimming surrounding
/// whitespace, a non-empty run of decimal digits whose value fits the
/// process-identifier type, and nothing else.
pub open spec fn parse_pid_spec(s: Seq<u8>) -> Option<i32> {
    let t = trimmed(s);
    if t.len() > 0 && (forall|i: int| 0 <= i < t.len() ==> is_digit_byte(t[i]))
        && digits_value(t) <= i32::MAX as nat {
        Some(digits_value(t) as i32)
    } else {
        None
    }
}

/// Dropping whitespace from the front one byte at a time reaches the suffix
/// that starts at the first non-whitespace byte.
proof fn lemma_trim_start_at(s: Seq<u8>, lo: int)
    requires
        0 <= lo <= s.len(),
        forall|k: int| 0 <= k < lo ==> is_ws_byte(s[k]),
        lo < s.len() ==> !is_ws_byte(s[lo]),
    ensures
        trim_start_spec(s) == s.subrange(lo, s.len() as int),
    decreases lo,
{
    if lo == 0 {
        assert(s.subrange(0, s.len() as int) =~= s);
    } else {
        let d = s.drop_first();
        assert(d =~= s.subrange(1, s.len() as int));
        lemma_trim_start_at(d, lo - 1);
        assert(d.subrange(lo - 1, d.len() as int) =~= s.subrange(lo, s.len() as int));
    }
}

/// Dropping whitespace from the back one byte at a time reaches the prefix
/// that ends after the last non-whitespace byte.
proof fn lemma_trim_end_at(s: Seq<u8>, hi: int)
    requires
        0 <= hi <= s.len(),
        forall|k: int| hi <= k < s.len() ==> is_ws_byte(s[k]),
        hi > 0 ==> !is_ws_byte(s[hi - 1]),
    ensures
        trim_end_spec(s) == s.subrange(0, hi),
    decreases s.len(),
{
    if hi == s.len() {
        if s.len() > 0 && is_ws_byte(s.last()) {
            assert(!is_ws_byte(s[hi - 1]));
        }
        assert(s.subrange(0, s.len() as int) =~= s);
    } else {
        let d = s.drop_last();
        assert(is_ws_byte(s.last()));
        lemma_trim_end_at(d, hi);
        assert(d.subrange(0, hi) =~= s.subrange(0, hi));
    }
}

/// The value of a digit prefix never exceeds the value of the whole run.
proof fn lemma_digits_value_mono(t: Seq<u8>, i: int)
    requires
        0 <= i <= t.len(),
    ensures
        digits_value(t.take(i)) <= digits_value(t),
    decreases t.len() - i,
{
    if i == t.len() {
        assert(t.take(i) =~= t);
    } else {
        lemma_digits_value_mono(t, i + 1);
        assert(t.take(i + 1).drop_last() =~= t.take(i));
        assert(digits_value(t.take(i + 1)) == digits_value(t.take(i)) * 10 + (t.take(i + 1).last()
            - 48) as nat);
    }
}

/// Whether `b` is a whitespace byte for trimming.
fn ws_byte(b: u8) -> (r: bool)
    ensures
        r == is_ws_byte(b),
{
    b == 32 || b == 9 || b == 10 || b == 13
}

/// Reads a process identifier from marker-file content: surrounding
/// whitespace is ignored, and the digits between must be non-empty, all
/// decimal, and fit the identifier type, exactly as `parse_pid_spec` says.
pub fn parse_pid(content: &Vec<u8>) -> (r: Option<i32>)
    ensures
        r == parse_pid_spec(content@),
{
    let n = content.len();
    let mut lo: usize = 0;
    while lo < n && ws_byte(content[lo])
        invariant
            n == content@.len(),
            0 <= lo <= n,
            forall|k: int| 0 <= k < lo ==> is_ws_byte(content@[k]),
        decreases n - lo,
    {
        lo += 1;
    }
    let mut hi: usize = n;
    while hi > lo && ws_byte(content[hi - 1])
        invariant
            n == content@.len(),
            lo <= hi <= n,
            forall|k: int| hi <= k < n ==> is_ws_byte(content@[k]),
        decreases hi,
    {
        hi -= 1;
    }
    let ghost t: Seq<u8> = content@.subrange(lo as int, hi as int);
    proof {
        lemma_trim_start_at(content@, lo as int);
        let sub = content@.subrange(lo as int, n as int);
        assert forall|k: int| hi - lo <= k < sub.len() implies is_ws_byte(sub[k]) by {
            assert(sub[k] == content@[lo + k]);
        }
        if hi > lo {
            assert(sub[hi - lo - 1] == content@[hi - 1]);
        }
        lemma_trim_end_at(sub, hi - lo);
        assert(sub.subrange(0, hi - lo) =~= t);
        assert(trimmed(content@) == t);
    }
    if lo == hi {
        return None;
    }
    let mut acc: u64 = 0;
    let mut k: usize = lo;
    while k < hi
        invariant
            n == content@.len(),
            lo < hi,
            lo <= k <= hi <= n,
            t == content@.subrange(lo as int, hi as int),
            trimmed(content@) == t,
            forall|j: int| 0 <= j < k - lo ==> is_digit_byte(t[j]),
            acc == digits_value(t.take(k - lo)),
            acc <= i32::MAX as u64,
        decreases hi - k,
    {
        let b = content[k];
        proof {
            assert(t[k - lo] == content@[lo + (k - lo)]);
        }
        if b < 48 || b > 57 {
            assert(!is_digit_byte(t[k - lo]));
            return None;
        }
        acc = acc * 10 + ((b - 48) as u64);
        proof {
            assert(t.take(k - lo + 1).drop_last() =~= t.take(k - lo));
            assert(t.take(k - lo + 1).last() == t[k - lo]);
        }
        if acc > (i32::MAX as u64) {
            proof {
                lemma_digits_value_mono(t, k - lo + 1);
            }
            return None;
        }
        k += 1;
    }
    proof {
        assert(t.take(hi - lo) =~= t);
    }
    Some(acc as i32)
}

} // verus!
