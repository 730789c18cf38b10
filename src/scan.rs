//! Byte and character scan primitives shared by the block splitter and the
//! inline renderer.
use vstd::prelude::*;
use vstd::string::StringSliceAdditionalSpecFns;

verus! {

/// The first index `k >= start` of `s` with `s[k] == x`, if there is one.
pub open spec fn first_from<A>(s: Seq<A>, x: A, start: int) -> Option<int>
    decreases s.len() - start,
{
    if start < 0 || start >= s.len() {
        None
    } else if s[start] == x {
        Some(start)
    } else {
        first_from(s, x, start + 1)
    }
}

/// A search result lies at or after its start, inside the sequence, and
/// no earlier position from the start holds the item.
pub proof fn lemma_first_from<A>(s: Seq<A>, x: A, start: int)
    ensures
        match first_from(s, x, start) {
            Some(k) => 0 <= start <= k < s.len() && s[k] == x
                && forall|j: int| start <= j < k ==> s[j] != x,
            None => forall|j: int| start <= j < s.len() && 0 <= start ==> s[j] != x,
        },
    decreases s.len() - start,
{
    if 0 <= start < s.len() && s[start] != x {
        lemma_first_from(s, x, start + 1);
    }
}

/// Relies on memchr::memchr: the index of the first occurrence of `needle`
/// in `haystack`, or `None` when there is none.
#[verifier::external_body]
pub(crate) fn memchr_first(needle: u8, haystack: &[u8]) -> (r: Option<usize>)
    ensures
        match r {
            Some(k) => k < haystack@.len() && haystack@[k as int] == needle
                && forall|j: int| 0 <= j < k ==> haystack@[j] != needle,
            None => forall|j: int| 0 <= j < haystack@.len() ==> haystack@[j] != needle,
        },
{
    memchr::memchr(needle, haystack)
}

/// A search from `start` finds `k` when `s[k]` holds the item and no
/// earlier position from `start` does.
pub proof fn lemma_first_from_found<A>(s: Seq<A>, b: A, start: int, k: int)
    requires
        0 <= start <= k < s.len(),
        s[k] == b,
        forall|j: int| start <= j < k ==> s[j] != b,
    ensures
        first_from(s, b, start) == Some(k),
    decreases k - start,
{
    if start < k {
        lemma_first_from_found(s, b, start + 1, k);
    }
}

/// A search from `start` finds nothing when no position from `start` holds
/// the item.
pub proof fn lemma_first_from_absent<A>(s: Seq<A>, b: A, start: int)
    requires
        0 <= start,
        forall|j: int| start <= j < s.len() ==> s[j] != b,
    ensures
        first_from(s, b, start) is None,
    decreases s.len() - start,
{
    if start < s.len() {
        lemma_first_from_absent(s, b, start + 1);
    }
}

/// The first byte position at or after `start` that holds `delimiter`,
/// searched with a vectorised byte search.
pub fn find_delimiter_simd(text: &str, delimiter: u8, start: usize) -> (r: Option<usize>)
    ensures
        r == (match first_from(text.spec_bytes(), delimiter, start as int) {
            Some(k) => Some(k as usize),
            None => None::<usize>,
        }),
{
    let bytes = text.as_bytes();
    if start >= bytes.len() {
        return None;
    }
    let tail = slice_from(bytes, start);
    match memchr_first(delimiter, tail) {
        Some(pos) => {
            proof {
                assert forall|j: int| start <= j < start + pos implies bytes@[j] != delimiter by {
                    assert(tail@[j - start] == bytes@[j]);
                }
                assert(tail@[pos as int] == bytes@[start + pos]);
                lemma_first_from_found(bytes@, delimiter, start as int, start + pos);
            }
            Some(start + pos)
        },
        None => {
            proof {
                assert forall|j: int| start <= j < bytes@.len() implies bytes@[j] != delimiter by {
                    assert(tail@[j - start] == bytes@[j]);
                }
                lemma_first_from_absent(bytes@, delimiter, start as int);
            }
            None
        },
    }
}

/// The first byte position at or after `start` that holds `delimiter`,
/// searched one byte at a time.
pub fn find_delimiter_scalar(text: &str, delimiter: u8, start: usize) -> (r: Option<usize>)
    ensures
        r == (match first_from(text.spec_bytes(), delimiter, start as int) {
            Some(k) => Some(k as usize),
            None => None::<usize>,
        }),
{
    let bytes = text.as_bytes();
    let mut i = start;
    while i < bytes.len()
        invariant
            start <= i,
            bytes@ == text.spec_bytes(),
            forall|j: int| start <= j < i ==> bytes@[j] != delimiter,
        decreases bytes.len() - i,
    {
        if bytes[i] == delimiter {
            proof {
                lemma_first_from_found(bytes@, delimiter, start as int, i as int);
            }
            return Some(i);
        }
        i += 1;
    }
    proof {
        lemma_first_from_absent(bytes@, delimiter, start as int);
    }
    None
}

/// The suffix of `s` from `start`.
fn slice_from(s: &[u8], start: usize) -> (r: &[u8])
    requires
        start <= s@.len(),
    ensures
        r@ == s@.subrange(start as int, s@.len() as int),
{
    let (_, tail) = s.split_at(start);
    tail
}

/// The number of bytes at the front of `bytes` that equal `target`.
pub open spec fn leading_count<A>(bytes: Seq<A>, target: A) -> nat
    decreases bytes.len(),
{
    if bytes.len() == 0 || bytes[0] != target {
        0
    } else {
        1 + leading_count(bytes.drop_first(), target)
    }
}

/// Counts the bytes at the front of `bytes` that equal `target`.
pub fn count_leading_bytes_simd(bytes: &[u8], target: u8) -> (r: usize)
    ensures
        r == leading_count(bytes@, target),
        r <= bytes@.len(),
        forall|j: int| 0 <= j < r ==> bytes@[j] == target,
        r < bytes@.len() ==> bytes@[r as int] != target,
{
    let mut i: usize = 0;
    while i < bytes.len() && bytes[i] == target
        invariant
            i <= bytes@.len(),
            forall|j: int| 0 <= j < i ==> bytes@[j] == target,
        decreases bytes.len() - i,
    {
        i += 1;
    }
    proof {
        lemma_leading_count(bytes@, target, i as int);
    }
    i
}

/// The leading run of `target` has length `n` when the first `n` items are
/// `target` and the next one, if any, is not.
pub proof fn lemma_leading_count<A>(bytes: Seq<A>, target: A, n: int)
    requires
        0 <= n <= bytes.len(),
        forall|j: int| 0 <= j < n ==> bytes[j] == target,
        n == bytes.len() || bytes[n] != target,
    ensures
        leading_count(bytes, target) == n,
    decreases n,
{
    if n > 0 {
        lemma_leading_count(bytes.drop_first(), target, n - 1);
    }
}

/// Whether `b` is an ASCII decimal digit.
pub open spec fn is_digit_byte(b: u8) -> bool {
    0x30 <= b <= 0x39
}

/// True when `bytes` is non-empty and every byte is an ASCII digit.
pub fn is_all_digits_simd(bytes: &[u8]) -> (r: bool)
    ensures
        r == (bytes@.len() > 0 && forall|j: int| 0 <= j < bytes@.len() ==> is_digit_byte(#[trigger] bytes@[j])),
{
    if bytes.len() == 0 {
        return false;
    }
    let mut i: usize = 0;
    while i < bytes.len()
        invariant
            i <= bytes@.len(),
            forall|j: int| 0 <= j < i ==> is_digit_byte(#[trigger] bytes@[j]),
        decreases bytes.len() - i,
    {
        if !(0x30 <= bytes[i] && bytes[i] <= 0x39) {
            return false;
        }
        i += 1;
    }
    true
}

/// True when `bytes` starts with three backticks.
pub fn is_code_block_start_simd(bytes: &[u8]) -> (r: bool)
    ensures
        r == (bytes@.len() >= 3 && bytes@[0] == 0x60u8 && bytes@[1] == 0x60u8 && bytes@[2] == 0x60u8),
{
    bytes.len() >= 3 && bytes[0] == 0x60u8 && bytes[1] == 0x60u8 && bytes[2] == 0x60u8
}

} // verus!
