//! Record framing: delimiting a raw byte stream into key and value segments.
//!
//! A record is read in two segments: all bytes up to and including the next
//! `;` form the key segment, then all bytes up to and including the next
//! line feed form the value segment. A read that reaches the end of the
//! stream keeps what it found without its delimiter. The stream is
//! exhausted when a key read yields no bytes; a key segment followed by an
//! empty value read is a truncated record.

use vstd::prelude::*;

verus! {

/// The byte that closes a key segment: `;`.
pub const KEY_DELIM: u8 = 59;

/// The byte that closes a value segment: line feed.
pub const LINE_DELIM: u8 = 10;

/// Index of the first `b` in `s` at or after `from`; `s.len()` if there is
/// none.
pub open spec fn find_byte(s: Seq<u8>, from: int, b: u8) -> int
    decreases s.len() - from,
    when 0 <= from <= s.len()
{
    if from >= s.len() {
        s.len() as int
    } else if s[from] == b {
        from
    } else {
        find_byte(s, from + 1, b)
    }
}

pub proof fn lemma_find_byte(s: Seq<u8>, from: int, b: u8)
    requires
        0 <= from <= s.len(),
    ensures
        from <= find_byte(s, from, b) <= s.len(),
        find_byte(s, from, b) < s.len() ==> s[find_byte(s, from, b)] == b,
        forall|j: int| from <= j < find_byte(s, from, b) ==> s[j] != b,
    decreases s.len() - from,
{
    if from < s.len() && s[from] != b {
        lemma_find_byte(s, from + 1, b);
    }
}

/// End of the segment that a read up to and including `b` yields starting
/// at `pos`: one past the delimiter, or the end of the stream if the
/// delimiter does not occur.
pub open spec fn seg_end(s: Seq<u8>, pos: int, b: u8) -> int {
    if find_byte(s, pos, b) < s.len() {
        find_byte(s, pos, b) + 1
    } else {
        s.len() as int
    }
}

pub proof fn lemma_seg_end(s: Seq<u8>, pos: int, b: u8)
    requires
        0 <= pos < s.len(),
    ensures
        pos < seg_end(s, pos, b) <= s.len(),
{
    lemma_find_byte(s, pos, b);
}

/// Outcome of delimiting one record at `pos`.
#[derive(Clone, Copy, Debug, PartialEq, Eq, Structural)]
pub enum SplitStep {
    /// The stream is exhausted: the key read yielded no bytes.
    Done,
    /// A key segment stands at the end of the stream with no value bytes
    /// after it: the stream ended mid-record.
    Truncated,
    /// One whole record: the key segment is `input[pos..key_end]`, the
    /// value segment is `input[key_end..val_end]`.
    Record { key_end: usize, val_end: usize },
}

/// Delimit the record that starts at `pos`.
pub fn split_next(input: &[u8], pos: usize) -> (r: SplitStep)
    requires
        pos <= input@.len(),
    ensures
        pos == input@.len() ==> r == SplitStep::Done,
        pos < input@.len() && seg_end(input@, pos as int, KEY_DELIM) == input@.len() ==> r
            == SplitStep::Truncated,
        pos < input@.len() && seg_end(input@, pos as int, KEY_DELIM) < input@.len() ==> (r
            matches SplitStep::Record { key_end, val_end } && key_end == seg_end(
            input@,
            pos as int,
            KEY_DELIM,
        ) && val_end == seg_end(input@, key_end as int, LINE_DELIM) && pos < key_end < val_end
            <= input@.len()),
{
    if pos == input.len() {
        return SplitStep::Done;
    }
    proof {
        lemma_seg_end(input@, pos as int, KEY_DELIM);
    }
    let key_end = seg_end_exec(input, pos, KEY_DELIM);
    if key_end == input.len() {
        return SplitStep::Truncated;
    }
    proof {
        lemma_seg_end(input@, key_end as int, LINE_DELIM);
    }
    let val_end = seg_end_exec(input, key_end, LINE_DELIM);
    SplitStep::Record { key_end, val_end }
}

/// Executable counterpart of `seg_end`.
#[verifier::loop_isolation(false)]
fn seg_end_exec(input: &[u8], pos: usize, b: u8) -> (r: usize)
    requires
        pos <= input@.len(),
    ensures
        r == seg_end(input@, pos as int, b),
{
    let n = input.len();
    let mut i = pos;
    while i < n
        invariant
            pos <= i <= n,
            find_byte(input@, pos as int, b) == find_byte(input@, i as int, b),
        decreases n - i,
    {
        if input[i] == b {
            return i + 1;
        }
        i = i + 1;
    }
    proof {
        lemma_find_byte(input@, pos as int, b);
    }
    n
}

} // verus!
