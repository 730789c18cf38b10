//! Physical lines: splitting a document into lines and classifying each line
//! by its leading structure.
use vstd::prelude::*;

use crate::scan::{first_from, lemma_first_from, lemma_leading_count, leading_count};
use vstd::utf8::{encode_scalar, encode_utf8};

use crate::escape::{lemma_ascii_byte, lemma_high_bytes};
use crate::scan::{
    count_leading_bytes_simd, is_all_digits_simd, is_code_block_start_simd, memchr_first,
};
use crate::text::{find_char, trim_start, trim_start_slice, trim_start_str};

verus! {

/// What a line is, judged from its content alone.
#[derive(Debug, Clone, Copy, PartialEq, Eq, Structural)]
pub enum LineType {
    Empty,
    Header(usize),
    UnorderedList,
    OrderedList,
    CodeBlock,
    Paragraph,
}

/// Whether `c` is an ASCII decimal digit.
pub open spec fn is_digit(c: char) -> bool {
    0x30 <= (c as u32) <= 0x39
}

/// The position of the `.` of an ordered-list marker at the front of `t`:
/// the first `.` of `t`, preceded only by digits (at least one) and
/// followed by a space.
pub open spec fn ordered_dot(t: Seq<char>) -> Option<int> {
    match first_from(t, '.', 0) {
        Some(d) => if 0 < d && d + 1 < t.len() && t[d + 1] == ' ' && (forall|j: int|
            0 <= j < d ==> is_digit(#[trigger] t[j])) {
            Some(d)
        } else {
            None
        },
        None => None,
    }
}

/// Whether `t` starts with three backticks.
pub open spec fn starts_with_fence(t: Seq<char>) -> bool {
    t.len() >= 3 && t[0] == '`' && t[1] == '`' && t[2] == '`'
}

/// Whether `t` starts with a bullet (`-`, `*` or `+`) and a space.
pub open spec fn starts_with_bullet(t: Seq<char>) -> bool {
    t.len() >= 2 && (t[0] == '-' || t[0] == '*' || t[0] == '+') && t[1] == ' '
}

/// Whether `t` starts with a header marker: one to six `#` and a space.
pub open spec fn header_level(t: Seq<char>) -> Option<nat> {
    let n = leading_count(t, '#');
    if 0 < n <= 6 && n < t.len() && t[n as int] == ' ' {
        Some(n)
    } else {
        None
    }
}

/// The type of a line whose leading whitespace has been removed.
pub open spec fn classify(t: Seq<char>) -> LineType {
    if t.len() == 0 {
        LineType::Empty
    } else if header_level(t) is Some {
        LineType::Header(header_level(t)->0 as usize)
    } else if starts_with_bullet(t) {
        LineType::UnorderedList
    } else if ordered_dot(t) is Some {
        LineType::OrderedList
    } else if starts_with_fence(t) {
        LineType::CodeBlock
    } else {
        LineType::Paragraph
    }
}

/// The type of the line `l`.
pub open spec fn line_type(l: Seq<char>) -> LineType {
    classify(trim_start(l))
}

/// Whether `l` opens or closes a code block.
pub open spec fn is_fence(l: Seq<char>) -> bool {
    starts_with_fence(trim_start(l))
}

/// Counts the characters at the front of `t` that equal `c`.
fn count_leading(t: &[char], c: char) -> (r: usize)
    ensures
        r == leading_count(t@, c),
{
    let mut i: usize = 0;
    while i < t.len() && t[i] == c
        invariant
            i <= t@.len(),
            forall|j: int| 0 <= j < i ==> t@[j] == c,
        decreases t.len() - i,
    {
        i += 1;
    }
    proof {
        lemma_leading_count(t@, c, i as int);
    }
    i
}

/// Whether `c` is an ASCII decimal digit.
fn is_digit_char(c: char) -> (r: bool)
    ensures
        r == is_digit(c),
{
    let u = c as u32;
    0x30 <= u && u <= 0x39
}

/// The position of the `.` of an ordered-list marker at the front of `t`.
pub(crate) fn find_ordered_dot(t: &[char]) -> (r: Option<usize>)
    ensures
        r == (match ordered_dot(t@) {
            Some(d) => Some(d as usize),
            None => None::<usize>,
        }),
{
    proof {
        lemma_first_from(t@, '.', 0);
    }
    let n = t.len();
    let found = find_char(t, '.', 0);
    let d = match found {
        Some(d) => d,
        None => {
            return None;
        },
    };
    assert(first_from(t@, '.', 0) is Some);
    assert(first_from(t@, '.', 0) == Some(d as int));
    if d == 0 || d >= t.len() - 1 || t[d + 1] != ' ' {
        return None;
    }
    let mut j: usize = 0;
    while j < d
        invariant
            0 < d < t@.len() - 1,
            t@[d + 1] == ' ',
            first_from(t@, '.', 0) == Some(d as int),
            j <= d,
            forall|k: int| 0 <= k < j ==> is_digit(#[trigger] t@[k]),
        decreases d - j,
    {
        if !is_digit_char(t[j]) {
            assert(!is_digit(t@[j as int]));
            return None;
        }
        j += 1;
    }
    Some(d)
}

/// The level of the header marker at the front of `t`, if it has one.
fn find_header_level(t: &[char]) -> (r: Option<usize>)
    ensures
        r == (match header_level(t@) {
            Some(n) => Some(n as usize),
            None => None::<usize>,
        }),
{
    let n = count_leading(t, '#');
    if 0 < n && n <= 6 && n < t.len() && t[n] == ' ' {
        Some(n)
    } else {
        None
    }
}

/// The type of a line whose leading whitespace has been removed.
fn classify_trimmed(t: &[char]) -> (r: LineType)
    ensures
        r == classify(t@),
{
    if t.len() == 0 {
        return LineType::Empty;
    }
    if let Some(n) = find_header_level(t) {
        return LineType::Header(n);
    }
    if t.len() >= 2 && (t[0] == '-' || t[0] == '*' || t[0] == '+') && t[1] == ' ' {
        return LineType::UnorderedList;
    }
    if find_ordered_dot(t).is_some() {
        return LineType::OrderedList;
    }
    if t.len() >= 3 && t[0] == '`' && t[1] == '`' && t[2] == '`' {
        return LineType::CodeBlock;
    }
    LineType::Paragraph
}

/// The type of the line `line`.
pub fn line_type_of(line: &[char]) -> (r: LineType)
    ensures
        r == line_type(line@),
{
    classify_trimmed(trim_start_slice(line))
}

/// The first byte of the UTF-8 encoding of a character is below 0x80
/// exactly when the character is ASCII, and then it is that character.
proof fn lemma_encode_prefix(t: Seq<char>, k: int)
    requires
        0 <= k <= t.len(),
        forall|j: int| 0 <= j < k ==> (#[trigger] t[j] as u32) <= 0x7f,
    ensures
        encode_utf8(t).len() >= k,
        forall|j: int| 0 <= j < k ==> encode_utf8(t)[j] as u32 == #[trigger] t[j] as u32,
        k == t.len() ==> encode_utf8(t).len() == k,
        k < t.len() ==> encode_utf8(t).len() > k,
        k < t.len() && (t[k] as u32) <= 0x7f ==> encode_utf8(t)[k] as u32 == t[k] as u32,
        k < t.len() && (t[k] as u32) > 0x7f ==> encode_utf8(t)[k] >= 0x80,
    decreases k,
{
    if t.len() > 0 {
        let v = t[0] as u32;
        let e = encode_scalar(v);
        let rest = t.drop_first();
        assert(encode_utf8(t) == e + encode_utf8(rest));
        if v <= 0x7f {
            lemma_ascii_byte(v);
            assert(e.len() == 1);
        } else {
            lemma_high_bytes(((v >> 6) & 0x1F) as u8);
            lemma_high_bytes(((v >> 12) & 0x0F) as u8);
            lemma_high_bytes(((v >> 18) & 0x7) as u8);
            assert(e[0] >= 0x80);
        }
        if k > 0 {
            lemma_encode_prefix(rest, k - 1);
            assert forall|j: int| 0 <= j < k implies encode_utf8(t)[j] as u32
                == #[trigger] t[j] as u32 by {
                if j > 0 {
                    assert(encode_utf8(t)[j] == encode_utf8(rest)[j - 1]);
                    assert(t[j] == rest[j - 1]);
                }
            }
            if k < t.len() {
                assert(encode_utf8(t)[k] == encode_utf8(rest)[k - 1]);
                assert(t[k] == rest[k - 1]);
            }
        }
    }
}

proof fn lemma_same_char(c: char, d: char)
    requires
        c as u32 == d as u32,
    ensures
        c == d,
{
    vstd::utf8::char_u32_cast(c, c as u32);
    vstd::utf8::char_u32_cast(d, d as u32);
}

/// Bytes below 0x80 at the front of a UTF-8 encoding are the ASCII
/// characters at the front of the text.
proof fn lemma_encode_ascii_front(t: Seq<char>, m: int)
    requires
        0 <= m <= encode_utf8(t).len(),
        forall|j: int| 0 <= j < m ==> #[trigger] encode_utf8(t)[j] < 0x80,
    ensures
        m <= t.len(),
        forall|j: int| 0 <= j < m ==> (#[trigger] t[j] as u32) <= 0x7f,
        forall|j: int| 0 <= j < m ==> encode_utf8(t)[j] as u32 == #[trigger] t[j] as u32,
    decreases m,
{
    if m > 0 {
        lemma_encode_ascii_front(t, m - 1);
        lemma_encode_prefix(t, m - 1);
        if m - 1 == t.len() {
            assert(false);
        }
        assert(encode_utf8(t)[m - 1] < 0x80);
        lemma_encode_prefix(t, m);
    }
}

/// Classifies a line by its leading structure: blank, header (with its
/// level), bullet item, numbered item, code fence, or paragraph text. Works
/// on the line's UTF-8 bytes with vectorised searches.
#[verifier::rlimit(60)]
pub fn detect_line_type_simd(line: &str) -> (r: LineType)
    ensures
        r == line_type(line@),
{
    let trimmed = trim_start_str(line);
    let bytes = trimmed.as_bytes();
    let ghost t = trimmed@;
    let ghost b = bytes@;
    proof {
        lemma_encode_prefix(t, 0);
    }
    if bytes.len() == 0 {
        return LineType::Empty;
    }
    let n = bytes.len();
    proof {
        if (t[0] as u32) <= 0x7f {
            lemma_encode_prefix(t, 1);
        }
        if t[0] != '#' {
            assert(leading_count(t, '#') == 0);
        }
    }
    if bytes[0] == 0x23 {
        let level = count_leading_bytes_simd(bytes, 0x23);
        proof {
            lemma_encode_ascii_front(t, level as int);
            assert forall|j: int| 0 <= j < level implies t[j] == '#' by {
                assert(b[j] == 0x23);
                lemma_same_char(t[j], '#');
            }
            if level < t.len() {
                lemma_encode_prefix(t, level as int);
                assert(t[level as int] != '#');
            }
            lemma_leading_count(t, '#', level as int);
        }
        if level <= 6 && level < n && bytes[level] == 0x20 {
            proof {
                lemma_encode_prefix(t, level as int);
                lemma_same_char(t[level as int], ' ');
            }
            return LineType::Header(level);
        }
        proof {
            if level < t.len() && t[level as int] == ' ' {
                lemma_encode_prefix(t, level as int);
            }
        }
    }
    assert(header_level(t) is None);
    if n >= 2 {
        if (bytes[0] == 0x2d || bytes[0] == 0x2a || bytes[0] == 0x2b) && bytes[1] == 0x20 {
            proof {
                lemma_encode_ascii_front(t, 2);
                lemma_same_char(t[1], ' ');
                if b[0] == 0x2d {
                    lemma_same_char(t[0], '-');
                } else if b[0] == 0x2a {
                    lemma_same_char(t[0], '*');
                } else {
                    lemma_same_char(t[0], '+');
                }
            }
            return LineType::UnorderedList;
        }
        if 0x30 <= bytes[0] && bytes[0] <= 0x39 {
            if let Some(d) = memchr_first(0x2e, bytes) {
                if d > 0 && d < n - 1 && bytes[d + 1] == 0x20 && is_all_digits_simd(&bytes[0..d]) {
                    proof {
                        assert forall|j: int| 0 <= j < d + 2 implies #[trigger] b[j] < 0x80 by {
                            if j < d {
                                assert(bytes@.subrange(0, d as int)[j] == b[j]);
                            }
                        }
                        lemma_encode_ascii_front(t, d + 2);
                        assert forall|j: int| 0 <= j < d implies is_digit(#[trigger] t[j]) by {
                            assert(bytes@.subrange(0, d as int)[j] == b[j]);
                        }
                        assert forall|j: int| 0 <= j < d implies t[j] != '.' by {
                            assert(b[j] != 0x2e);
                        }
                        lemma_same_char(t[d as int], '.');
                        lemma_same_char(t[d + 1], ' ');
                        crate::scan::lemma_first_from_found(t, '.', 0, d as int);
                    }
                    return LineType::OrderedList;
                }
            }
        }
    }
    proof {
        if let Some(d) = ordered_dot(t) {
            lemma_first_from(t, '.', 0);
            assert forall|j: int| 0 <= j < d + 2 implies (#[trigger] t[j] as u32) <= 0x7f by {
                if j < d {
                    assert(is_digit(t[j]));
                }
            }
            lemma_encode_prefix(t, d + 2);
            assert(b[d] == 0x2e);
            assert(b[0] as u32 == t[0] as u32);
            assert(is_digit(t[0]));
            crate::scan::lemma_first_from(b, 0x2e, 0);
            assert forall|j: int| 0 <= j < d implies b[j] != 0x2e by {
                assert(is_digit(t[j]));
            }
            crate::scan::lemma_first_from_found(b, 0x2e, 0, d);
            assert forall|j: int| 0 <= j < d implies crate::scan::is_digit_byte(#[trigger] b.subrange(0, d)[j]) by {
                assert(b.subrange(0, d)[j] == b[j]);
                assert(is_digit(t[j]));
            }
            assert(false);
        }
    }
    if is_code_block_start_simd(bytes) {
        proof {
            lemma_encode_ascii_front(t, 3);
            lemma_same_char(t[0], '`');
            lemma_same_char(t[1], '`');
            lemma_same_char(t[2], '`');
        }
        return LineType::CodeBlock;
    }
    proof {
        if starts_with_fence(t) {
            lemma_encode_prefix(t, 3);
        }
        if starts_with_bullet(t) {
            lemma_encode_prefix(t, 2);
        }
    }
    LineType::Paragraph
}

/// Whether `line` opens or closes a code block, judged on its UTF-8 bytes.
pub fn is_code_block_start(line: &str) -> (r: bool)
    ensures
        r == is_fence(line@),
{
    let trimmed = trim_start_str(line);
    let bytes = trimmed.as_bytes();
    let ghost t = trimmed@;
    let r = is_code_block_start_simd(bytes);
    proof {
        if r {
            lemma_encode_ascii_front(t, 3);
            lemma_same_char(t[0], '`');
            lemma_same_char(t[1], '`');
            lemma_same_char(t[2], '`');
        } else if starts_with_fence(t) {
            lemma_encode_prefix(t, 3);
        }
    }
    r
}

/// Whether `line` is an item of a bulleted list.
pub fn is_unordered_list_item(line: &str) -> (r: bool)
    ensures
        r == (line_type(line@) == LineType::UnorderedList),
{
    matches!(detect_line_type_simd(line), LineType::UnorderedList)
}

/// Whether `line` is an item of a numbered list.
pub fn is_ordered_list_item(line: &str) -> (r: bool)
    ensures
        r == (line_type(line@) == LineType::OrderedList),
{
    matches!(detect_line_type_simd(line), LineType::OrderedList)
}

/// `l` without a carriage return that ended it before its line feed.
pub open spec fn strip_cr(l: Seq<char>) -> Seq<char> {
    if l.len() > 0 && l.last() == '\r' {
        l.drop_last()
    } else {
        l
    }
}

/// The lines of `s`: split at each line feed, a carriage return before a
/// line feed dropped, and no empty line after a final line feed.
pub open spec fn lines_of(s: Seq<char>) -> Seq<Seq<char>>
    decreases s.len(),
{
    if s.len() == 0 {
        Seq::empty()
    } else {
        proof {
            lemma_first_from(s, '\n', 0);
        }
        match first_from(s, '\n', 0) {
            Some(k) => seq![strip_cr(s.subrange(0, k))] + lines_of(s.subrange(k + 1, s.len() as int)),
            None => seq![s],
        }
    }
}

/// The views of a sequence of character vectors.
pub open spec fn views(v: Seq<Vec<char>>) -> Seq<Seq<char>> {
    v.map_values(|x: Vec<char>| x@)
}

/// The characters of `s` from `lo` to `hi`, without a final carriage return.
fn line_without_cr(s: &[char], lo: usize, hi: usize) -> (r: Vec<char>)
    requires
        lo <= hi <= s@.len(),
    ensures
        r@ == strip_cr(s@.subrange(lo as int, hi as int)),
{
    let end = if hi > lo && s[hi - 1] == '\r' {
        hi - 1
    } else {
        hi
    };
    let mut r: Vec<char> = Vec::new();
    let mut k = lo;
    while k < end
        invariant
            lo <= k <= end <= hi <= s@.len(),
            r@ == s@.subrange(lo as int, k as int),
        decreases end - k,
    {
        r.push(s[k]);
        k += 1;
        assert(r@ =~= s@.subrange(lo as int, k as int));
    }
    assert(r@ =~= strip_cr(s@.subrange(lo as int, hi as int)));
    r
}

/// Splits `s` into its lines.
pub fn split_lines(s: &[char]) -> (r: Vec<Vec<char>>)
    ensures
        views(r@) == lines_of(s@),
{
    let mut r: Vec<Vec<char>> = Vec::new();
    let mut start: usize = 0;
    assert(s@.subrange(0, s@.len() as int) =~= s@);
    while start < s.len()
        invariant
            start <= s@.len(),
            lines_of(s@) == views(r@) + lines_of(s@.subrange(start as int, s@.len() as int)),
        decreases s.len() - start,
    {
        let ghost rest = s@.subrange(start as int, s@.len() as int);
        proof {
            lemma_first_from(s@, '\n', start as int);
            lemma_first_from(rest, '\n', 0);
        }
        match find_char(s, '\n', start) {
            Some(k) => {
                proof {
                    assert(rest[k - start] == '\n');
                    assert forall|j: int| 0 <= j < k - start implies rest[j] != '\n' by {
                        assert(rest[j] == s@[start + j]);
                    }
                    crate::scan::lemma_first_from_found(rest, '\n', 0, k - start);
                    assert(rest.subrange(0, k - start) =~= s@.subrange(start as int, k as int));
                    assert(rest.subrange(k - start + 1, rest.len() as int) =~= s@.subrange(
                        k + 1,
                        s@.len() as int,
                    ));
                }
                let line = line_without_cr(s, start, k);
                let ghost old_r = r@;
                r.push(line);
                assert(views(r@) =~= views(old_r) + seq![line@]);
                start = k + 1;
            },
            None => {
                proof {
                    assert forall|j: int| 0 <= j < rest.len() implies rest[j] != '\n' by {
                        assert(rest[j] == s@[start + j]);
                    }
                    crate::scan::lemma_first_from_absent(rest, '\n', 0);
                }
                let mut line: Vec<char> = Vec::new();
                let mut k = start;
                while k < s.len()
                    invariant
                        start <= k <= s@.len(),
                        line@ == s@.subrange(start as int, k as int),
                    decreases s.len() - k,
                {
                    line.push(s[k]);
                    k += 1;
                    assert(line@ =~= s@.subrange(start as int, k as int));
                }
                let ghost old_r = r@;
                r.push(line);
                assert(views(r@) =~= views(old_r) + seq![line@]);
                start = s.len();
                assert(lines_of(s@.subrange(start as int, s@.len() as int)) =~= Seq::<
                    Seq<char>,
                >::empty());
            },
        }
    }
    assert(lines_of(s@.subrange(start as int, s@.len() as int)) =~= Seq::<Seq<char>>::empty());
    assert(views(r@) + Seq::<Seq<char>>::empty() =~= views(r@));
    r
}

} // verus!
