//! The inline renderer: emphasis, inline code and links inside block text.
use vstd::prelude::*;

use crate::escape::{
    entity, escape, escape_runs_into, lemma_escape_append, lemma_escape_only_entities,
    lemma_escape_single, push_entity,
    only_entities,
};
use crate::scan::{first_from, lemma_first_from};
use crate::text::{find_char, push_chars, push_str};

verus! {

/// The first position `e >= start` at which `**` stands, if there is one.
pub open spec fn first_pair_from(t: Seq<char>, start: int) -> Option<int>
    decreases t.len() - start,
{
    if start < 0 || start + 1 >= t.len() {
        None
    } else if t[start] == '*' && t[start + 1] == '*' {
        Some(start)
    } else {
        first_pair_from(t, start + 1)
    }
}

/// A found `**` lies at or after the start of the search and inside `t`.
pub proof fn lemma_first_pair_from(t: Seq<char>, start: int)
    ensures
        first_pair_from(t, start) matches Some(e) ==> 0 <= start <= e && e + 1 < t.len()
            && t[e] == '*' && t[e + 1] == '*',
    decreases t.len() - start,
{
    if 0 <= start && start + 1 < t.len() && !(t[start] == '*' && t[start + 1] == '*') {
        lemma_first_pair_from(t, start + 1);
    }
}

/// Where the closing `**` of a bold span opened at `i` starts: the first
/// `**` at or after `i + 2`.
pub open spec fn bold_end(t: Seq<char>, i: int) -> Option<int> {
    if 0 <= i && i + 3 < t.len() && t[i] == '*' && t[i + 1] == '*' {
        first_pair_from(t, i + 2)
    } else {
        None
    }
}

/// Where the closing delimiter of an italic span opened at `i` stands.
pub open spec fn italic_end(t: Seq<char>, i: int) -> Option<int> {
    if 0 <= i < t.len() && (t[i] == '*' || t[i] == '_') {
        first_from(t, t[i], i + 1)
    } else {
        None
    }
}

/// Where the closing backtick of an inline code span opened at `i` stands.
pub open spec fn code_end(t: Seq<char>, i: int) -> Option<int> {
    if 0 <= i < t.len() && t[i] == '`' {
        first_from(t, '`', i + 1)
    } else {
        None
    }
}

/// For a link opened at `i`: where its `]` and its closing `)` stand.
pub open spec fn link_ends(t: Seq<char>, i: int) -> Option<(int, int)> {
    if 0 <= i < t.len() && t[i] == '[' {
        match first_from(t, ']', i + 1) {
            Some(b) => if b + 1 < t.len() && t[b + 1] == '(' {
                match first_from(t, ')', b + 2) {
                    Some(p) => Some((b, p)),
                    None => None,
                }
            } else {
                None
            },
            None => None,
        }
    } else {
        None
    }
}

/// A bold span around already rendered content.
pub open spec fn strong_html(inner: Seq<char>) -> Seq<char> {
    "<strong>"@ + inner + "</strong>"@
}

/// An italic span; its content is copied as it stands.
pub open spec fn em_html(content: Seq<char>) -> Seq<char> {
    "<em>"@ + content + "</em>"@
}

/// An inline code span; its content is escaped.
pub open spec fn code_html(content: Seq<char>) -> Seq<char> {
    "<code>"@ + escape(content) + "</code>"@
}

/// A link; both its label and its target are escaped.
pub open spec fn link_html(label: Seq<char>, url: Seq<char>) -> Seq<char> {
    "<a href=\""@ + escape(url) + "\">"@ + escape(label) + "</a>"@
}

/// The HTML for `t` from position `i` on.
pub open spec fn inline_from(t: Seq<char>, i: int) -> Seq<char>
    decreases t.len(), t.len() - i,
{
    if i < 0 || i >= t.len() {
        Seq::empty()
    } else {
        let c = t[i];
        proof {
            lemma_first_pair_from(t, i + 2);
            lemma_first_from(t, c, i + 1);
            lemma_first_from(t, ']', i + 1);
            if let Some(b) = first_from(t, ']', i + 1) {
                lemma_first_from(t, ')', b + 2);
            }
        }
        if c == '*' && bold_end(t, i) is Some {
            let e = bold_end(t, i)->0;
            strong_html(inline_from(t.subrange(i + 2, e), 0)) + inline_from(t, e + 2)
        } else if italic_end(t, i) is Some {
            let e = italic_end(t, i)->0;
            em_html(t.subrange(i + 1, e)) + inline_from(t, e + 1)
        } else if code_end(t, i) is Some {
            let e = code_end(t, i)->0;
            code_html(t.subrange(i + 1, e)) + inline_from(t, e + 1)
        } else if link_ends(t, i) is Some {
            let (b, p) = link_ends(t, i)->0;
            link_html(t.subrange(i + 1, b), t.subrange(b + 2, p)) + inline_from(t, p + 1)
        } else {
            entity(c) + inline_from(t, i + 1)
        }
    }
}

/// The HTML for the inline text `t`.
pub open spec fn inline_html(t: Seq<char>) -> Seq<char> {
    inline_from(t, 0)
}

/// Renders the inline markup of `text` and appends the HTML to `output`.
pub fn process_inline_elements_into(text: &[char], output: &mut Vec<char>)
    ensures
        final(output)@ == old(output)@ + inline_html(text@),
    decreases text@.len(), 2int,
{
    let mut i: usize = 0;
    while i < text.len()
        invariant
            i <= text@.len(),
            old(output)@ + inline_from(text@, 0) == output@ + inline_from(text@, i as int),
        decreases text.len() - i,
    {
        let n = render_at(text, i, output);
        i += n;
    }
}

/// Renders what starts at position `i` of `text`: a span, or a single
/// character; returns how many characters it covers.
#[verifier::rlimit(40)]
fn render_at(text: &[char], i: usize, output: &mut Vec<char>) -> (n: usize)
    requires
        i < text@.len(),
    ensures
        1 <= n <= text@.len() - i,
        final(output)@ + inline_from(text@, i + n) == old(output)@ + inline_from(text@, i as int),
    decreases text@.len(), 1int,
{
    let ghost t = text@;
    let c = text[i];
    proof {
        lemma_first_pair_from(t, i + 2);
        lemma_first_from(t, c, i + 1);
        lemma_first_from(t, ']', i + 1);
        if let Some(b) = first_from(t, ']', i + 1) {
            lemma_first_from(t, ')', b + 2);
        }
    }
    if c == '*' {
        if let Some(n) = try_parse_bold(text, i, output) {
            return n;
        }
    }
    if c == '*' || c == '_' {
        if let Some(n) = try_parse_italic(text, i, output) {
            return n;
        }
    }
    if c == '`' {
        if let Some(n) = try_parse_inline_code(text, i, output) {
            return n;
        }
    }
    if c == '[' {
        if let Some(n) = try_parse_link(text, i, output) {
            return n;
        }
    }
    push_entity(output, c);
    1
}

/// Tries a bold span at `start`; on success appends it and returns the
/// number of characters it spans.
pub fn try_parse_bold(text: &[char], start: usize, output: &mut Vec<char>) -> (r: Option<usize>)
    ensures
        match bold_end(text@, start as int) {
            Some(e) => r == Some((e - start + 2) as usize) && final(output)@ == old(output)@
                + strong_html(inline_html(text@.subrange(start + 2, e))),
            None => r is None && final(output)@ == old(output)@,
        },
    decreases text@.len(), 0int,
{
    if start >= text.len() || text.len() - start <= 3 || text[start] != '*' || text[start + 1]
        != '*' {
        return None;
    }
    match find_star_pair(text, start + 2) {
        Some(e) => {
            proof {
                lemma_first_pair_from(text@, start + 2);
            }
            push_str(output, "<strong>");
            process_inline_elements_into(&text[start + 2..e], output);
            push_str(output, "</strong>");
            Some(e - start + 2)
        },
        None => None,
    }
}

/// The first position at or after `start` at which `**` stands.
fn find_star_pair(text: &[char], start: usize) -> (r: Option<usize>)
    ensures
        r == (match first_pair_from(text@, start as int) {
            Some(e) => Some(e as usize),
            None => None::<usize>,
        }),
{
    let n = text.len();
    let mut j = start;
    while n > 0 && j < n - 1
        invariant
            n == text@.len(),
            start <= j,
            first_pair_from(text@, start as int) == first_pair_from(text@, j as int),
        decreases n - j,
    {
        if text[j] == '*' && text[j + 1] == '*' {
            return Some(j);
        }
        j += 1;
    }
    None
}

/// Tries an italic span at `start`; on success appends it and returns the
/// number of characters it spans.
pub fn try_parse_italic(text: &[char], start: usize, output: &mut Vec<char>) -> (r: Option<usize>)
    ensures
        match italic_end(text@, start as int) {
            Some(e) => r == Some((e - start + 1) as usize) && final(output)@ == old(output)@
                + em_html(text@.subrange(start + 1, e)),
            None => r is None && final(output)@ == old(output)@,
        },
{
    if start >= text.len() {
        return None;
    }
    let delimiter = text[start];
    if delimiter != '*' && delimiter != '_' {
        return None;
    }
    proof {
        lemma_first_from(text@, delimiter, start + 1);
    }
    match find_char(text, delimiter, start + 1) {
        Some(e) => {
            push_str(output, "<em>");
            push_chars(output, &text[start + 1..e]);
            push_str(output, "</em>");
            Some(e - start + 1)
        },
        None => None,
    }
}

/// Tries an inline code span at `start`; on success appends it and returns
/// the number of characters it spans.
pub fn try_parse_inline_code(text: &[char], start: usize, output: &mut Vec<char>) -> (r: Option<
    usize,
>)
    ensures
        match code_end(text@, start as int) {
            Some(e) => r == Some((e - start + 1) as usize) && final(output)@ == old(output)@
                + code_html(text@.subrange(start + 1, e)),
            None => r is None && final(output)@ == old(output)@,
        },
{
    if start >= text.len() || text[start] != '`' {
        return None;
    }
    proof {
        lemma_first_from(text@, '`', start + 1);
    }
    match find_char(text, '`', start + 1) {
        Some(e) => {
            push_str(output, "<code>");
            escape_runs_into(&text[start + 1..e], output);
            push_str(output, "</code>");
            Some(e - start + 1)
        },
        None => None,
    }
}

/// Tries a link at `start`; on success appends it and returns the number of
/// characters it spans.
pub fn try_parse_link(text: &[char], start: usize, output: &mut Vec<char>) -> (r: Option<usize>)
    ensures
        match link_ends(text@, start as int) {
            Some((b, p)) => r == Some((p - start + 1) as usize) && final(output)@ == old(output)@
                + link_html(text@.subrange(start + 1, b), text@.subrange(b + 2, p)),
            None => r is None && final(output)@ == old(output)@,
        },
{
    if start >= text.len() || text[start] != '[' {
        return None;
    }
    proof {
        lemma_first_from(text@, ']', start + 1);
    }
    let b = match find_char(text, ']', start + 1) {
        Some(b) => b,
        None => {
            return None;
        },
    };
    if b + 1 >= text.len() || text[b + 1] != '(' {
        return None;
    }
    proof {
        lemma_first_from(text@, ')', b + 2);
    }
    let p = match find_char(text, ')', b + 2) {
        Some(p) => p,
        None => {
            return None;
        },
    };
    push_str(output, "<a href=\"");
    escape_runs_into(&text[b + 2..p], output);
    push_str(output, "\">");
    escape_runs_into(&text[start + 1..b], output);
    push_str(output, "</a>");
    Some(p - start + 1)
}

/// Whether `c` can open an inline span.
pub open spec fn is_opener(c: char) -> bool {
    c == '*' || c == '_' || c == '`' || c == '['
}

proof fn lemma_inline_plain_from(t: Seq<char>, i: int)
    requires
        0 <= i <= t.len(),
        forall|j: int| 0 <= j < t.len() ==> !is_opener(#[trigger] t[j]),
    ensures
        inline_from(t, i) == escape(t.subrange(i, t.len() as int)),
    decreases t.len() - i,
{
    if i == t.len() {
        assert(t.subrange(i, t.len() as int) =~= Seq::<char>::empty());
    } else {
        lemma_inline_plain_from(t, i + 1);
        let rest = t.subrange(i + 1, t.len() as int);
        assert(t.subrange(i, t.len() as int) =~= seq![t[i]] + rest);
        lemma_escape_append(seq![t[i]], rest);
        lemma_escape_single(t[i]);
        assert(!is_opener(t[i]));
    }
}

/// Text that opens no span renders as its escaped form, in which every
/// HTML metacharacter stands only as its entity.
pub proof fn lemma_literal_text_escaped(t: Seq<char>)
    requires
        forall|j: int| 0 <= j < t.len() ==> !is_opener(#[trigger] t[j]),
    ensures
        inline_html(t) == escape(t),
        only_entities(inline_html(t)),
{
    lemma_inline_plain_from(t, 0);
    assert(t.subrange(0, t.len() as int) =~= t);
    lemma_escape_only_entities(t);
}

} // verus!
