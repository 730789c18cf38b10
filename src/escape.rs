//! HTML escaping of text, in a batched and in a one-character-at-a-time form.
use vstd::prelude::*;
use vstd::string::StringExecFns;

use vstd::utf8::{
    encode_scalar, encode_utf8, encode_utf8_decode_utf8, encode_utf8_valid_utf8, has_width_1_encoding,
    valid_utf8,
};

use crate::text::{chars_of, push_chars, push_str, string_of};

verus! {

/// The characters that HTML text must not hold literally.
pub open spec fn is_special(c: char) -> bool {
    c == '&' || c == '<' || c == '>' || c == '"' || c == '\''
}

/// What a single character becomes in escaped text.
pub open spec fn entity(c: char) -> Seq<char> {
    if c == '&' {
        "&amp;"@
    } else if c == '<' {
        "&lt;"@
    } else if c == '>' {
        "&gt;"@
    } else if c == '"' {
        "&quot;"@
    } else if c == '\'' {
        "&#39;"@
    } else {
        seq![c]
    }
}

/// `t` with each special character replaced by its entity.
pub open spec fn escape(t: Seq<char>) -> Seq<char>
    decreases t.len(),
{
    if t.len() == 0 {
        Seq::empty()
    } else {
        escape(t.drop_last()) + entity(t.last())
    }
}

/// Escaping distributes over concatenation.
pub proof fn lemma_escape_append(a: Seq<char>, b: Seq<char>)
    ensures
        escape(a + b) == escape(a) + escape(b),
    decreases b.len(),
{
    if b.len() == 0 {
        assert(a + b =~= a);
        assert(escape(b) =~= Seq::<char>::empty());
        assert(escape(a) + escape(b) =~= escape(a));
    } else {
        assert((a + b).drop_last() =~= a + b.drop_last());
        assert((a + b).last() == b.last());
        lemma_escape_append(a, b.drop_last());
        assert(escape(a + b) =~= escape(a) + escape(b));
    }
}

/// Escaping text that holds no special character leaves it unchanged.
pub proof fn lemma_escape_plain(t: Seq<char>)
    requires
        forall|j: int| 0 <= j < t.len() ==> !is_special(#[trigger] t[j]),
    ensures
        escape(t) == t,
    decreases t.len(),
{
    if t.len() > 0 {
        lemma_escape_plain(t.drop_last());
        assert(escape(t) =~= t);
    }
}

proof fn lemma_escape_step(t: Seq<char>, i: int)
    requires
        0 <= i < t.len(),
    ensures
        escape(t.subrange(0, i + 1)) == escape(t.subrange(0, i)) + entity(t[i]),
{
    assert(t.subrange(0, i + 1).drop_last() =~= t.subrange(0, i));
}

/// Appends the entity of `c` to `out`.
pub(crate) fn push_entity(out: &mut Vec<char>, c: char)
    ensures
        final(out)@ == old(out)@ + entity(c),
{
    if c == '&' {
        push_str(out, "&amp;");
    } else if c == '<' {
        push_str(out, "&lt;");
    } else if c == '>' {
        push_str(out, "&gt;");
    } else if c == '"' {
        push_str(out, "&quot;");
    } else if c == '\'' {
        push_str(out, "&#39;");
    } else {
        out.push(c);
        assert(out@ =~= old(out)@ + seq![c]);
    }
}

/// Whether `c` is one of the special characters.
pub fn is_special_char(c: char) -> (r: bool)
    ensures
        r == is_special(c),
{
    c == '&' || c == '<' || c == '>' || c == '"' || c == '\''
}

/// The first position at or after `start` that holds a special character,
/// or the length of `t` when there is none.
pub fn find_special(t: &[char], start: usize) -> (r: usize)
    requires
        start <= t@.len(),
    ensures
        start <= r <= t@.len(),
        forall|j: int| start <= j < r ==> !is_special(#[trigger] t@[j]),
        r < t@.len() ==> is_special(t@[r as int]),
{
    let mut i = start;
    while i < t.len() && !is_special_char(t[i])
        invariant
            start <= i <= t@.len(),
            forall|j: int| start <= j < i ==> !is_special(#[trigger] t@[j]),
        decreases t.len() - i,
    {
        i += 1;
    }
    i
}

/// Appends the escaped form of `t` to `out`, copying each run of ordinary
/// characters in one step.
pub fn escape_runs_into(t: &[char], out: &mut Vec<char>)
    ensures
        final(out)@ == old(out)@ + escape(t@),
{
    let mut i: usize = 0;
    while i < t.len()
        invariant
            i <= t@.len(),
            out@ == old(out)@ + escape(t@.subrange(0, i as int)),
        decreases t.len() - i,
    {
        let k = find_special(t, i);
        push_chars(out, &t[i..k]);
        proof {
            let run = t@.subrange(i as int, k as int);
            assert forall|j: int| 0 <= j < run.len() implies !is_special(#[trigger] run[j]) by {
                assert(run[j] == t@[i + j]);
            }
            lemma_escape_plain(run);
            assert(t@.subrange(0, k as int) =~= t@.subrange(0, i as int) + run);
            lemma_escape_append(t@.subrange(0, i as int), run);
        }
        if k < t.len() {
            push_entity(out, t[k]);
            proof {
                lemma_escape_step(t@, k as int);
            }
            i = k + 1;
        } else {
            i = k;
        }
    }
    assert(t@.subrange(0, t@.len() as int) =~= t@);
}

/// Appends the escaped form of `t` to `out`, one character at a time.
pub fn escape_chars_into(t: &[char], out: &mut Vec<char>)
    ensures
        final(out)@ == old(out)@ + escape(t@),
{
    let mut i: usize = 0;
    while i < t.len()
        invariant
            i <= t@.len(),
            out@ == old(out)@ + escape(t@.subrange(0, i as int)),
        decreases t.len() - i,
    {
        push_entity(out, t[i]);
        proof {
            lemma_escape_step(t@, i as int);
        }
        i += 1;
    }
    assert(t@.subrange(0, t@.len() as int) =~= t@);
}

/// Appends the HTML-escaped form of `text` to `output`, one character at a
/// time.
pub fn html_escape_scalar_into(text: &str, output: &mut String)
    ensures
        final(output)@ == old(output)@ + escape(text@),
{
    let cs = chars_of(text);
    let mut buf: Vec<char> = Vec::new();
    escape_chars_into(cs.as_slice(), &mut buf);
    let s = string_of(&buf);
    output.append(s.as_str());
}

/// The characters that escaped text never holds literally: all special
/// characters but `&`, which only opens an entity there.
pub open spec fn is_raw_meta(c: char) -> bool {
    c == '<' || c == '>' || c == '"' || c == '\''
}

/// An entity of some special character starts at position `j` of `s`.
pub open spec fn entity_at(s: Seq<char>, j: int) -> bool {
    exists|c: char|
        is_special(c) && #[trigger] entity(c).len() + j <= s.len() && s.subrange(
            j,
            j + entity(c).len(),
        ) == entity(c)
}

/// `s` shows each special character only as its entity.
pub open spec fn only_entities(s: Seq<char>) -> bool {
    &&& forall|j: int| 0 <= j < s.len() ==> !is_raw_meta(#[trigger] s[j])
    &&& forall|j: int| 0 <= j < s.len() && #[trigger] s[j] == '&' ==> entity_at(s, j)
}

proof fn lemma_entity_shape(c: char)
    ensures
        entity(c).len() >= 1,
        is_special(c) ==> entity(c)[0] == '&',
        forall|k: int| 1 <= k < entity(c).len() ==> #[trigger] entity(c)[k] != '&' && !is_raw_meta(
            entity(c)[k],
        ),
        !is_special(c) ==> entity(c) == seq![c],
{
    reveal_strlit("&amp;");
    reveal_strlit("&lt;");
    reveal_strlit("&gt;");
    reveal_strlit("&quot;");
    reveal_strlit("&#39;");
}

/// In escaped text every HTML metacharacter stands only as its entity:
/// no `<`, `>`, `"` or `'` is left, and each `&` begins an entity.
pub proof fn lemma_escape_only_entities(t: Seq<char>)
    ensures
        only_entities(escape(t)),
    decreases t.len(),
{
    if t.len() > 0 {
        let pre = escape(t.drop_last());
        let c = t.last();
        let s = escape(t);
        lemma_escape_only_entities(t.drop_last());
        lemma_entity_shape(c);
        assert(s == pre + entity(c));
        assert forall|j: int| 0 <= j < s.len() implies !is_raw_meta(#[trigger] s[j]) by {
            if j >= pre.len() {
                assert(s[j] == entity(c)[j - pre.len()]);
            }
        }
        assert forall|j: int| 0 <= j < s.len() && #[trigger] s[j] == '&' implies entity_at(s, j) by {
            if j < pre.len() {
                assert(pre[j] == '&');
                let d = choose|d: char|
                    is_special(d) && #[trigger] entity(d).len() + j <= pre.len() && pre.subrange(
                        j,
                        j + entity(d).len(),
                    ) == entity(d);
                assert(s.subrange(j, j + entity(d).len()) =~= pre.subrange(j, j + entity(d).len()));
            } else {
                assert(s[j] == entity(c)[j - pre.len()]);
                assert(j == pre.len());
                assert(is_special(c));
                assert(s.subrange(j, j + entity(c).len()) =~= entity(c));
            }
        }
    }
}

pub(crate) proof fn lemma_escape_single(c: char)
    ensures
        escape(seq![c]) == entity(c),
{
    assert(seq![c].drop_last() =~= Seq::<char>::empty());
    assert(escape(Seq::<char>::empty()) + entity(c) =~= entity(c));
}

/// The bytes of the special characters.
pub open spec fn is_special_byte(b: u8) -> bool {
    b == 0x26 || b == 0x3c || b == 0x3e || b == 0x22 || b == 0x27
}

/// What a single byte becomes in escaped UTF-8 text.
pub open spec fn byte_entity(b: u8) -> Seq<u8> {
    if b == 0x26 {
        encode_utf8("&amp;"@)
    } else if b == 0x3c {
        encode_utf8("&lt;"@)
    } else if b == 0x3e {
        encode_utf8("&gt;"@)
    } else if b == 0x22 {
        encode_utf8("&quot;"@)
    } else if b == 0x27 {
        encode_utf8("&#39;"@)
    } else {
        seq![b]
    }
}

/// UTF-8 text `b` with each special byte replaced by its entity.
pub open spec fn escape_bytes(b: Seq<u8>) -> Seq<u8>
    decreases b.len(),
{
    if b.len() == 0 {
        Seq::empty()
    } else {
        byte_entity(b[0]) + escape_bytes(b.drop_first())
    }
}

proof fn lemma_escape_bytes_append(a: Seq<u8>, b: Seq<u8>)
    ensures
        escape_bytes(a + b) == escape_bytes(a) + escape_bytes(b),
    decreases a.len(),
{
    if a.len() == 0 {
        assert(a + b =~= b);
        assert(escape_bytes(a) + escape_bytes(b) =~= escape_bytes(b));
    } else {
        assert((a + b).drop_first() =~= a.drop_first() + b);
        lemma_escape_bytes_append(a.drop_first(), b);
        assert(escape_bytes(a + b) =~= escape_bytes(a) + escape_bytes(b));
    }
}

proof fn lemma_escape_bytes_plain(b: Seq<u8>)
    requires
        forall|j: int| 0 <= j < b.len() ==> !is_special_byte(#[trigger] b[j]),
    ensures
        escape_bytes(b) == b,
    decreases b.len(),
{
    if b.len() > 0 {
        lemma_escape_bytes_plain(b.drop_first());
        assert(escape_bytes(b) =~= b);
    }
}

proof fn lemma_encode_append(a: Seq<char>, b: Seq<char>)
    ensures
        encode_utf8(a + b) == encode_utf8(a) + encode_utf8(b),
    decreases a.len(),
{
    if a.len() == 0 {
        assert(a + b =~= b);
        assert(encode_utf8(a) + encode_utf8(b) =~= encode_utf8(b));
    } else {
        assert((a + b).drop_first() =~= a.drop_first() + b);
        lemma_encode_append(a.drop_first(), b);
        assert(encode_utf8(a + b) =~= encode_utf8(a) + encode_utf8(b));
    }
}

pub(crate) proof fn lemma_ascii_byte(v: u32)
    requires
        v <= 0x7f,
    ensures
        ((v & 0x7f) as u8) as u32 == v,
{
    assert(((v & 0x7f) as u8) as u32 == v) by (bit_vector)
        requires
            v <= 0x7f,
    ;
}

pub(crate) proof fn lemma_high_bytes(x: u8)
    ensures
        (0x80u8 | x) >= 0x80,
        (0xC0u8 | x) >= 0x80,
        (0xE0u8 | x) >= 0x80,
        (0xF0u8 | x) >= 0x80,
{
    assert((0x80u8 | x) >= 0x80) by (bit_vector);
    assert((0xC0u8 | x) >= 0x80) by (bit_vector);
    assert((0xE0u8 | x) >= 0x80) by (bit_vector);
    assert((0xF0u8 | x) >= 0x80) by (bit_vector);
}

proof fn lemma_escape_scalar(c: char)
    ensures
        escape_bytes(encode_scalar(c as u32)) == encode_utf8(entity(c)),
{
    let v = c as u32;
    let e = encode_scalar(v);
    assert(encode_utf8(seq![c]) =~= encode_scalar(v) + encode_utf8(seq![c].drop_first()));
    assert(seq![c].drop_first() =~= Seq::<char>::empty());
    assert(encode_utf8(seq![c]) =~= e);
    if has_width_1_encoding(v) {
        lemma_ascii_byte(v);
        assert(e =~= seq![e[0]]);
        assert(escape_bytes(e) =~= byte_entity(e[0]) + escape_bytes(e.drop_first()));
        assert(escape_bytes(e.drop_first()) =~= Seq::<u8>::empty());
    } else {
        lemma_high_bytes(((v >> 6) & 0x1F) as u8);
        lemma_high_bytes(((v >> 12) & 0x0F) as u8);
        lemma_high_bytes(((v >> 18) & 0x7) as u8);
        lemma_high_bytes((v & 0x3F) as u8);
        lemma_high_bytes(((v >> 6) & 0x3F) as u8);
        lemma_high_bytes(((v >> 12) & 0x3F) as u8);
        assert forall|j: int| 0 <= j < e.len() implies !is_special_byte(#[trigger] e[j]) by {
            assert(e[j] >= 0x80);
        }
        lemma_escape_bytes_plain(e);
    }
}

/// Escaping the UTF-8 bytes of a text gives the UTF-8 bytes of the escaped
/// text.
pub proof fn lemma_escape_bytes_encode(t: Seq<char>)
    ensures
        escape_bytes(encode_utf8(t)) == encode_utf8(escape(t)),
    decreases t.len(),
{
    if t.len() == 0 {
        assert(escape(t) =~= Seq::<char>::empty());
    } else {
        let rest = t.drop_first();
        lemma_escape_bytes_encode(rest);
        lemma_escape_bytes_append(encode_scalar(t[0] as u32), encode_utf8(rest));
        lemma_escape_scalar(t[0]);
        assert(t =~= seq![t[0]] + rest);
        lemma_escape_append(seq![t[0]], rest);
        lemma_escape_single(t[0]);
        lemma_encode_append(entity(t[0]), escape(rest));
    }
}

/// Relies on memchr::memchr2: the index of the first byte of `haystack`
/// that equals either needle, or `None` when there is none.
#[verifier::external_body]
fn memchr2_first(needle1: u8, needle2: u8, haystack: &[u8]) -> (r: Option<usize>)
    ensures
        match r {
            Some(k) => k < haystack@.len() && (haystack@[k as int] == needle1 || haystack@[k as int]
                == needle2) && forall|j: int|
                0 <= j < k ==> haystack@[j] != needle1 && haystack@[j] != needle2,
            None => forall|j: int|
                0 <= j < haystack@.len() ==> haystack@[j] != needle1 && haystack@[j] != needle2,
        },
{
    memchr::memchr2(needle1, needle2, haystack)
}

/// Relies on memchr::memchr3: the index of the first byte of `haystack`
/// that equals any of the three needles, or `None` when there is none.
#[verifier::external_body]
fn memchr3_first(needle1: u8, needle2: u8, needle3: u8, haystack: &[u8]) -> (r: Option<usize>)
    ensures
        match r {
            Some(k) => k < haystack@.len() && (haystack@[k as int] == needle1 || haystack@[k as int]
                == needle2 || haystack@[k as int] == needle3) && forall|j: int|
                0 <= j < k ==> haystack@[j] != needle1 && haystack@[j] != needle2 && haystack@[j]
                    != needle3,
            None => forall|j: int|
                0 <= j < haystack@.len() ==> haystack@[j] != needle1 && haystack@[j] != needle2
                    && haystack@[j] != needle3,
        },
{
    memchr::memchr3(needle1, needle2, needle3, haystack)
}

/// Relies on String::from_utf8: a string exactly when the bytes are valid
/// UTF-8, and then one whose UTF-8 encoding is those bytes.
#[verifier::external_body]
fn string_from_utf8(v: Vec<u8>) -> (r: Option<String>)
    ensures
        r is Some <==> valid_utf8(v@),
        r is Some ==> encode_utf8(r->0@) == v@,
{
    String::from_utf8(v).ok()
}

/// The bytes of `&`, `<` and `>`.
pub open spec fn is_markup_byte(b: u8) -> bool {
    b == 0x26 || b == 0x3c || b == 0x3e
}

/// The bytes of the two quotes.
pub open spec fn is_quote_byte(b: u8) -> bool {
    b == 0x22 || b == 0x27
}

/// The first position at or after `from` that holds `&`, `<` or `>`, or the
/// length of `h` when there is none, found with a vectorised search.
fn next_markup_byte(h: &[u8], from: usize) -> (r: usize)
    requires
        from <= h@.len(),
    ensures
        from <= r <= h@.len(),
        forall|j: int| from <= j < r ==> !is_markup_byte(#[trigger] h@[j]),
        r < h@.len() ==> is_markup_byte(h@[r as int]),
{
    let tail = &h[from..h.len()];
    match memchr3_first(0x26, 0x3c, 0x3e, tail) {
        Some(k) => {
            proof {
                assert forall|j: int| from <= j < from + k implies !is_markup_byte(#[trigger] h@[j]) by {
                    assert(tail@[j - from] == h@[j]);
                }
                assert(tail@[k as int] == h@[from + k]);
            }
            from + k
        },
        None => {
            proof {
                assert forall|j: int| from <= j < h@.len() implies !is_markup_byte(#[trigger] h@[j]) by {
                    assert(tail@[j - from] == h@[j]);
                }
            }
            h.len()
        },
    }
}

/// The first position at or after `from` that holds a quote, or the length
/// of `h` when there is none, found with a vectorised search.
fn next_quote_byte(h: &[u8], from: usize) -> (r: usize)
    requires
        from <= h@.len(),
    ensures
        from <= r <= h@.len(),
        forall|j: int| from <= j < r ==> !is_quote_byte(#[trigger] h@[j]),
        r < h@.len() ==> is_quote_byte(h@[r as int]),
{
    let tail = &h[from..h.len()];
    match memchr2_first(0x22, 0x27, tail) {
        Some(k) => {
            proof {
                assert forall|j: int| from <= j < from + k implies !is_quote_byte(#[trigger] h@[j]) by {
                    assert(tail@[j - from] == h@[j]);
                }
                assert(tail@[k as int] == h@[from + k]);
            }
            from + k
        },
        None => {
            proof {
                assert forall|j: int| from <= j < h@.len() implies !is_quote_byte(#[trigger] h@[j]) by {
                    assert(tail@[j - from] == h@[j]);
                }
            }
            h.len()
        },
    }
}

/// Appends every byte of `s` to `out`.
fn push_bytes(out: &mut Vec<u8>, s: &[u8])
    ensures
        final(out)@ == old(out)@ + s@,
{
    let mut i: usize = 0;
    while i < s.len()
        invariant
            i <= s@.len(),
            out@ == old(out)@ + s@.subrange(0, i as int),
        decreases s.len() - i,
    {
        out.push(s[i]);
        i += 1;
        assert(out@ =~= old(out)@ + s@.subrange(0, i as int));
    }
    assert(s@.subrange(0, s@.len() as int) =~= s@);
}

/// Appends the entity of byte `b` to `out`.
fn push_byte_entity(out: &mut Vec<u8>, b: u8)
    ensures
        final(out)@ == old(out)@ + byte_entity(b),
{
    if b == 0x26 {
        push_bytes(out, "&amp;".as_bytes());
    } else if b == 0x3c {
        push_bytes(out, "&lt;".as_bytes());
    } else if b == 0x3e {
        push_bytes(out, "&gt;".as_bytes());
    } else if b == 0x22 {
        push_bytes(out, "&quot;".as_bytes());
    } else if b == 0x27 {
        push_bytes(out, "&#39;".as_bytes());
    } else {
        out.push(b);
        assert(out@ =~= old(out)@ + seq![b]);
    }
}

/// Appends the HTML-escaped form of `text` to `output`, locating special
/// bytes with vectorised searches and copying the runs between them whole.
pub fn html_escape_simd_into(text: &str, output: &mut String)
    ensures
        final(output)@ == old(output)@ + escape(text@),
{
    let bytes = text.as_bytes();
    let mut out: Vec<u8> = Vec::new();
    let mut start: usize = 0;
    let mut markup = next_markup_byte(bytes, 0);
    let mut quote = next_quote_byte(bytes, 0);
    while start < bytes.len()
        invariant
            start <= markup <= bytes@.len(),
            start <= quote <= bytes@.len(),
            forall|j: int| start <= j < markup ==> !is_markup_byte(#[trigger] bytes@[j]),
            markup < bytes@.len() ==> is_markup_byte(bytes@[markup as int]),
            forall|j: int| start <= j < quote ==> !is_quote_byte(#[trigger] bytes@[j]),
            quote < bytes@.len() ==> is_quote_byte(bytes@[quote as int]),
            out@ == escape_bytes(bytes@.subrange(0, start as int)),
        decreases bytes.len() - start,
    {
        let k = if markup < quote {
            markup
        } else {
            quote
        };
        let ghost b = bytes@;
        push_bytes(&mut out, &bytes[start..k]);
        proof {
            let run = b.subrange(start as int, k as int);
            assert forall|j: int| 0 <= j < run.len() implies !is_special_byte(#[trigger] run[j]) by {
                assert(run[j] == b[start + j]);
                assert(!is_markup_byte(b[start + j]));
                assert(!is_quote_byte(b[start + j]));
            }
            lemma_escape_bytes_plain(run);
            assert(b.subrange(0, k as int) =~= b.subrange(0, start as int) + run);
            lemma_escape_bytes_append(b.subrange(0, start as int), run);
        }
        if k < bytes.len() {
            push_byte_entity(&mut out, bytes[k]);
            proof {
                assert(b.subrange(0, k + 1) =~= b.subrange(0, k as int) + seq![b[k as int]]);
                lemma_escape_bytes_append(b.subrange(0, k as int), seq![b[k as int]]);
                let one = seq![b[k as int]];
                assert(one.drop_first() =~= Seq::<u8>::empty());
                assert(escape_bytes(one.drop_first()) == Seq::<u8>::empty());
                assert(escape_bytes(one) == byte_entity(one[0]) + escape_bytes(one.drop_first()));
                assert(escape_bytes(one) =~= byte_entity(b[k as int]));
            }
            start = k + 1;
            if markup == k {
                markup = next_markup_byte(bytes, start);
            }
            if quote == k {
                quote = next_quote_byte(bytes, start);
            }
        } else {
            start = k;
        }
    }
    proof {
        assert(bytes@.subrange(0, bytes@.len() as int) =~= bytes@);
        lemma_escape_bytes_encode(text@);
        encode_utf8_valid_utf8(escape(text@));
    }
    match string_from_utf8(out) {
        Some(s) => {
            proof {
                encode_utf8_decode_utf8(s@);
                encode_utf8_decode_utf8(escape(text@));
            }
            output.append(s.as_str());
        },
        None => {},
    }
}

} // verus!
