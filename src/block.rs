//! The block splitter: groups lines into headers, code blocks, lists and
//! paragraphs and renders each.
use vstd::prelude::*;

use crate::escape::{escape, html_escape_simd_into};
use crate::escape::{is_special, lemma_escape_plain};
use crate::inline::{inline_html, is_opener, lemma_literal_text_escaped, process_inline_elements_into};
use crate::scan::{first_from, lemma_first_from, lemma_first_from_absent, leading_count};
use crate::text::is_ws;
use crate::lines::{
    detect_line_type_simd, find_ordered_dot, is_code_block_start, is_fence, is_ordered_list_item,
    is_unordered_list_item, line_type, ordered_dot, views, LineType,
};
use crate::text::{
    chars_of, push_chars, push_str, string_of, trim, trim_slice, trim_start, trim_start_slice,
};

verus! {

/// The first position at or after `j` whose line is a code fence, or the
/// number of lines when there is none.
pub open spec fn fence_end(ls: Seq<Seq<char>>, j: int) -> int
    decreases ls.len() - j,
{
    if j < 0 || j >= ls.len() {
        ls.len() as int
    } else if is_fence(ls[j]) {
        j
    } else {
        fence_end(ls, j + 1)
    }
}

/// The first position at or after `j` whose line is not of type `ty`, or
/// the number of lines when there is none.
pub open spec fn run_end(ls: Seq<Seq<char>>, j: int, ty: LineType) -> int
    decreases ls.len() - j,
{
    if j < 0 || j >= ls.len() {
        ls.len() as int
    } else if line_type(ls[j]) != ty {
        j
    } else {
        run_end(ls, j + 1, ty)
    }
}

/// The code block that opens before line `j` closes at or after `j`, and
/// no line before its closing fence is a fence.
pub proof fn lemma_fence_end(ls: Seq<Seq<char>>, j: int)
    requires
        0 <= j <= ls.len(),
    ensures
        j <= fence_end(ls, j) <= ls.len(),
        forall|k: int| j <= k < fence_end(ls, j) ==> !is_fence(#[trigger] ls[k]),
        fence_end(ls, j) < ls.len() ==> is_fence(ls[fence_end(ls, j)]),
    decreases ls.len() - j,
{
    if j < ls.len() && !is_fence(ls[j]) {
        lemma_fence_end(ls, j + 1);
    }
}

/// A run of lines of one type that starts at `j` ends at or after `j`, and
/// every line in it has that type.
pub proof fn lemma_run_end(ls: Seq<Seq<char>>, j: int, ty: LineType)
    requires
        0 <= j <= ls.len(),
    ensures
        j <= run_end(ls, j, ty) <= ls.len(),
        forall|k: int| j <= k < run_end(ls, j, ty) ==> line_type(#[trigger] ls[k]) == ty,
        run_end(ls, j, ty) < ls.len() ==> line_type(ls[run_end(ls, j, ty)]) != ty,
    decreases ls.len() - j,
{
    if j < ls.len() && line_type(ls[j]) == ty {
        lemma_run_end(ls, j + 1, ty);
    }
}

proof fn lemma_fence_end_at(ls: Seq<Seq<char>>, j: int, e: int)
    requires
        0 <= j <= e <= ls.len(),
        forall|k: int| j <= k < e ==> !is_fence(#[trigger] ls[k]),
        e < ls.len() ==> is_fence(ls[e]),
    ensures
        fence_end(ls, j) == e,
    decreases e - j,
{
    if j < e {
        lemma_fence_end_at(ls, j + 1, e);
    }
}

proof fn lemma_run_end_at(ls: Seq<Seq<char>>, j: int, e: int, ty: LineType)
    requires
        0 <= j <= e <= ls.len(),
        forall|k: int| j <= k < e ==> line_type(#[trigger] ls[k]) == ty,
        e < ls.len() ==> line_type(ls[e]) != ty,
    ensures
        run_end(ls, j, ty) == e,
    decreases e - j,
{
    if j < e {
        lemma_run_end_at(ls, j + 1, e, ty);
    }
}

/// The interior lines `lo..hi` of a code block, escaped and joined by line
/// feeds.
pub open spec fn code_body(ls: Seq<Seq<char>>, lo: int, hi: int) -> Seq<char>
    decreases hi - lo,
{
    if hi <= lo {
        Seq::empty()
    } else if hi == lo + 1 {
        escape(ls[lo])
    } else {
        code_body(ls, lo, hi - 1) + seq!['\n'] + escape(ls[hi - 1])
    }
}

/// The text of a bulleted item: what follows its marker, trimmed.
pub open spec fn bullet_text(l: Seq<char>) -> Seq<char> {
    let t = trim_start(l);
    trim(t.subrange(2, t.len() as int))
}

/// The text of a numbered item: what follows its `. `, trimmed.
pub open spec fn numbered_text(l: Seq<char>) -> Seq<char> {
    let t = trim_start(l);
    trim(t.subrange(ordered_dot(t)->0 + 2, t.len() as int))
}

/// The text of a header of level `n`: what follows its marker, trimmed.
pub open spec fn header_text(l: Seq<char>, n: int) -> Seq<char> {
    let t = trim_start(l);
    trim(t.subrange(n + 1, t.len() as int))
}

/// One list item around rendered text.
pub open spec fn item_html(inner: Seq<char>) -> Seq<char> {
    "  <li>"@ + inner + "</li>\n"@
}

/// The items of a bulleted list made of lines `lo..hi`.
pub open spec fn bullet_items(ls: Seq<Seq<char>>, lo: int, hi: int) -> Seq<char>
    decreases hi - lo,
{
    if hi <= lo {
        Seq::empty()
    } else {
        bullet_items(ls, lo, hi - 1) + item_html(inline_html(bullet_text(ls[hi - 1])))
    }
}

/// The items of a numbered list made of lines `lo..hi`.
pub open spec fn numbered_items(ls: Seq<Seq<char>>, lo: int, hi: int) -> Seq<char>
    decreases hi - lo,
{
    if hi <= lo {
        Seq::empty()
    } else {
        numbered_items(ls, lo, hi - 1) + item_html(inline_html(numbered_text(ls[hi - 1])))
    }
}

/// Lines `lo..hi` as they stand, joined by single spaces.
pub open spec fn joined(ls: Seq<Seq<char>>, lo: int, hi: int) -> Seq<char>
    decreases hi - lo,
{
    if hi <= lo {
        Seq::empty()
    } else if hi == lo + 1 {
        ls[lo]
    } else {
        joined(ls, lo, hi - 1) + seq![' '] + ls[hi - 1]
    }
}

/// The digit that names header level `n`.
pub open spec fn level_digit(n: int) -> char {
    if n == 1 {
        '1'
    } else if n == 2 {
        '2'
    } else if n == 3 {
        '3'
    } else if n == 4 {
        '4'
    } else if n == 5 {
        '5'
    } else {
        '6'
    }
}

/// A header of level `n` around rendered text.
pub open spec fn header_html(n: int, inner: Seq<char>) -> Seq<char> {
    "<h"@ + seq![level_digit(n)] + ">"@ + inner + "</h"@ + seq![level_digit(n)] + ">"@
}

/// The HTML for a code block whose interior lines are `lo..hi`.
pub open spec fn code_block_html(ls: Seq<Seq<char>>, lo: int, hi: int) -> Seq<char> {
    "<pre><code>"@ + code_body(ls, lo, hi) + "</code></pre>"@
}

/// The HTML for a bulleted list made of lines `lo..hi`.
pub open spec fn bullet_list_html(ls: Seq<Seq<char>>, lo: int, hi: int) -> Seq<char> {
    "<ul>\n"@ + bullet_items(ls, lo, hi) + "</ul>"@
}

/// The HTML for a numbered list made of lines `lo..hi`.
pub open spec fn numbered_list_html(ls: Seq<Seq<char>>, lo: int, hi: int) -> Seq<char> {
    "<ol>\n"@ + numbered_items(ls, lo, hi) + "</ol>"@
}

/// The HTML for a paragraph made of lines `lo..hi`.
pub open spec fn paragraph_html(ls: Seq<Seq<char>>, lo: int, hi: int) -> Seq<char> {
    "<p>"@ + inline_html(joined(ls, lo, hi)) + "</p>"@
}

/// The HTML for the blocks that start at line `i` or later, each followed by
/// a line feed.
pub open spec fn render_from(ls: Seq<Seq<char>>, i: int) -> Seq<char>
    decreases ls.len() - i,
{
    if i < 0 || i >= ls.len() {
        Seq::empty()
    } else {
        proof {
            lemma_fence_end(ls, i + 1);
            lemma_run_end(ls, i, line_type(ls[i]));
        }
        match line_type(ls[i]) {
            LineType::Empty => render_from(ls, i + 1),
            LineType::Header(n) => header_html(n as int, inline_html(header_text(ls[i], n as int)))
                + seq!['\n'] + render_from(ls, i + 1),
            LineType::CodeBlock => {
                let e = fence_end(ls, i + 1);
                let next = if e < ls.len() {
                    e + 1
                } else {
                    e
                };
                code_block_html(ls, i + 1, e) + seq!['\n'] + render_from(ls, next)
            },
            LineType::UnorderedList => {
                let e = run_end(ls, i, LineType::UnorderedList);
                bullet_list_html(ls, i, e) + seq!['\n'] + render_from(ls, e)
            },
            LineType::OrderedList => {
                let e = run_end(ls, i, LineType::OrderedList);
                numbered_list_html(ls, i, e) + seq!['\n'] + render_from(ls, e)
            },
            LineType::Paragraph => {
                let e = run_end(ls, i, LineType::Paragraph);
                paragraph_html(ls, i, e) + seq!['\n'] + render_from(ls, e)
            },
        }
    }
}

/// The document's HTML: the blocks of its lines, in order.
pub open spec fn markdown_html(s: Seq<char>) -> Seq<char> {
    render_from(crate::lines::lines_of(s), 0)
}

/// Appends the digit that names header level `n`.
fn push_level_digit(out: &mut Vec<char>, n: usize)
    requires
        1 <= n <= 6,
    ensures
        final(out)@ == old(out)@ + seq![level_digit(n as int)],
{
    let c = if n == 1 {
        '1'
    } else if n == 2 {
        '2'
    } else if n == 3 {
        '3'
    } else if n == 4 {
        '4'
    } else if n == 5 {
        '5'
    } else {
        '6'
    };
    out.push(c);
    assert(out@ =~= old(out)@ + seq![level_digit(n as int)]);
}

/// Each string of `texts` holds the characters of the same line of `lines`.
pub open spec fn texts_match(texts: Seq<String>, lines: Seq<Vec<char>>) -> bool {
    texts.len() == lines.len() && forall|k: int| 0 <= k < lines.len() ==> #[trigger] texts[k]@
        == lines[k]@
}

/// The lines of `lines` as strings.
pub fn line_texts(lines: &Vec<Vec<char>>) -> (r: Vec<String>)
    ensures
        texts_match(r@, lines@),
{
    let mut r: Vec<String> = Vec::new();
    let mut i: usize = 0;
    while i < lines.len()
        invariant
            i <= lines@.len(),
            r@.len() == i,
            forall|k: int| 0 <= k < i ==> #[trigger] r@[k]@ == lines@[k]@,
        decreases lines.len() - i,
    {
        r.push(string_of(&lines[i]));
        i += 1;
    }
    r
}

/// Renders `line` as a header when it is one; tells whether it was.
pub fn parse_header(line: &[char], text: &str, out: &mut Vec<char>) -> (r: bool)
    requires
        text@ == line@,
    ensures
        match line_type(line@) {
            LineType::Header(n) => r && final(out)@ == old(out)@ + header_html(
                n as int,
                inline_html(header_text(line@, n as int)),
            ),
            _ => !r && final(out)@ == old(out)@,
        },
{
    match detect_line_type_simd(text) {
        LineType::Header(n) => {
            let t = trim_start_slice(line);
            let content = trim_slice(&t[n + 1..t.len()]);
            push_str(out, "<h");
            push_level_digit(out, n);
            push_str(out, ">");
            process_inline_elements_into(content, out);
            push_str(out, "</h");
            push_level_digit(out, n);
            push_str(out, ">");
            assert(out@ =~= old(out)@ + header_html(
                n as int,
                inline_html(header_text(line@, n as int)),
            ));
            true
        },
        _ => false,
    }
}

/// Renders the code block that opens at line `start`; returns the position
/// of its closing fence, or the number of lines when it has none.
pub fn parse_code_block(
    lines: &Vec<Vec<char>>,
    texts: &Vec<String>,
    start: usize,
    out: &mut Vec<char>,
) -> (e: usize)
    requires
        start < lines@.len(),
        texts_match(texts@, lines@),
    ensures
        e == fence_end(views(lines@), start + 1),
        final(out)@ == old(out)@ + code_block_html(views(lines@), start + 1, e as int),
{
    let ghost ls = views(lines@);
    push_str(out, "<pre><code>");
    let n = lines.len();
    let mut i = start + 1;
    while i < lines.len() && !is_code_block_start(texts[i].as_str())
        invariant
            ls == views(lines@),
            texts_match(texts@, lines@),
            start + 1 <= i <= lines@.len(),
            forall|k: int| start + 1 <= k < i ==> !is_fence(#[trigger] ls[k]),
            out@ == old(out)@ + "<pre><code>"@ + code_body(ls, start + 1, i as int),
        decreases lines.len() - i,
    {
        let ghost before = out@;
        if i > start + 1 {
            out.push('\n');
        }
        let mut escaped = String::new();
        html_escape_simd_into(texts[i].as_str(), &mut escaped);
        let cs = chars_of(escaped.as_str());
        push_chars(out, cs.as_slice());
        i += 1;
        assert(out@ =~= old(out)@ + "<pre><code>"@ + code_body(ls, start + 1, i as int));
    }
    push_str(out, "</code></pre>");
    proof {
        lemma_fence_end_at(ls, start + 1, i as int);
    }
    assert(out@ =~= old(out)@ + code_block_html(ls, start + 1, i as int));
    i
}

/// Renders the bulleted list that starts at line `start`; returns the
/// position of the first line after it.
pub fn parse_unordered_list(
    lines: &Vec<Vec<char>>,
    texts: &Vec<String>,
    start: usize,
    out: &mut Vec<char>,
) -> (e:
    usize)
    requires
        start <= lines@.len(),
        texts_match(texts@, lines@),
    ensures
        e == run_end(views(lines@), start as int, LineType::UnorderedList),
        final(out)@ == old(out)@ + bullet_list_html(views(lines@), start as int, e as int),
{
    let ghost ls = views(lines@);
    push_str(out, "<ul>\n");
    let mut i = start;
    while i < lines.len() && is_unordered_list_item(texts[i].as_str())
        invariant
            ls == views(lines@),
            texts_match(texts@, lines@),
            start <= i <= lines@.len(),
            forall|k: int| start <= k < i ==> line_type(#[trigger] ls[k]) == LineType::UnorderedList,
            out@ == old(out)@ + "<ul>\n"@ + bullet_items(ls, start as int, i as int),
        decreases lines.len() - i,
    {
        let t = trim_start_slice(lines[i].as_slice());
        let content = trim_slice(&t[2..t.len()]);
        push_str(out, "  <li>");
        process_inline_elements_into(content, out);
        push_str(out, "</li>\n");
        i += 1;
        assert(out@ =~= old(out)@ + "<ul>\n"@ + bullet_items(ls, start as int, i as int));
    }
    push_str(out, "</ul>");
    proof {
        lemma_run_end_at(ls, start as int, i as int, LineType::UnorderedList);
    }
    assert(out@ =~= old(out)@ + bullet_list_html(ls, start as int, i as int));
    i
}

/// Renders the numbered list that starts at line `start`; returns the
/// position of the first line after it.
pub fn parse_ordered_list(
    lines: &Vec<Vec<char>>,
    texts: &Vec<String>,
    start: usize,
    out: &mut Vec<char>,
) -> (e:
    usize)
    requires
        start <= lines@.len(),
        texts_match(texts@, lines@),
    ensures
        e == run_end(views(lines@), start as int, LineType::OrderedList),
        final(out)@ == old(out)@ + numbered_list_html(views(lines@), start as int, e as int),
{
    let ghost ls = views(lines@);
    push_str(out, "<ol>\n");
    let mut i = start;
    while i < lines.len() && is_ordered_list_item(texts[i].as_str())
        invariant
            ls == views(lines@),
            texts_match(texts@, lines@),
            start <= i <= lines@.len(),
            forall|k: int| start <= k < i ==> line_type(#[trigger] ls[k]) == LineType::OrderedList,
            out@ == old(out)@ + "<ol>\n"@ + numbered_items(ls, start as int, i as int),
        decreases lines.len() - i,
    {
        let t = trim_start_slice(lines[i].as_slice());
        let tl = t.len();
        if let Some(d) = find_ordered_dot(t) {
            let content = trim_slice(&t[d + 2..tl]);
            push_str(out, "  <li>");
            process_inline_elements_into(content, out);
            push_str(out, "</li>\n");
        }
        i += 1;
        assert(out@ =~= old(out)@ + "<ol>\n"@ + numbered_items(ls, start as int, i as int));
    }
    push_str(out, "</ol>");
    proof {
        lemma_run_end_at(ls, start as int, i as int, LineType::OrderedList);
    }
    assert(out@ =~= old(out)@ + numbered_list_html(ls, start as int, i as int));
    i
}

/// Renders the paragraph that starts at line `start`; returns the position
/// of the first line after it.
pub fn parse_paragraph(
    lines: &Vec<Vec<char>>,
    texts: &Vec<String>,
    start: usize,
    out: &mut Vec<char>,
) -> (e: usize)
    requires
        start <= lines@.len(),
        texts_match(texts@, lines@),
    ensures
        e == run_end(views(lines@), start as int, LineType::Paragraph),
        final(out)@ == old(out)@ + paragraph_html(views(lines@), start as int, e as int),
{
    let ghost ls = views(lines@);
    let mut content: Vec<char> = Vec::new();
    let mut i = start;
    while i < lines.len() && matches!(detect_line_type_simd(texts[i].as_str()), LineType::Paragraph)
        invariant
            ls == views(lines@),
            texts_match(texts@, lines@),
            start <= i <= lines@.len(),
            forall|k: int| start <= k < i ==> line_type(#[trigger] ls[k]) == LineType::Paragraph,
            content@ == joined(ls, start as int, i as int),
        decreases lines.len() - i,
    {
        if i > start {
            content.push(' ');
        }
        push_chars(&mut content, lines[i].as_slice());
        i += 1;
        assert(content@ =~= joined(ls, start as int, i as int));
    }
    push_str(out, "<p>");
    process_inline_elements_into(content.as_slice(), out);
    push_str(out, "</p>");
    proof {
        lemma_run_end_at(ls, start as int, i as int, LineType::Paragraph);
    }
    assert(out@ =~= old(out)@ + paragraph_html(ls, start as int, i as int));
    i
}

/// Renders every block of `lines`, each followed by a line feed.
pub fn render_blocks(lines: &Vec<Vec<char>>) -> (r: Vec<char>)
    ensures
        r@ == render_from(views(lines@), 0),
{
    let ghost ls = views(lines@);
    let texts = line_texts(lines);
    let mut out: Vec<char> = Vec::new();
    let mut i: usize = 0;
    while i < lines.len()
        invariant
            ls == views(lines@),
            texts_match(texts@, lines@),
            i <= lines@.len(),
            out@ + render_from(ls, i as int) == render_from(ls, 0),
        decreases lines.len() - i,
    {
        let ghost before = out@;
        let ghost i0 = i as int;
        let line = lines[i].as_slice();
        proof {
            lemma_fence_end(ls, i + 1);
            lemma_run_end(ls, i as int, line_type(ls[i as int]));
        }
        match detect_line_type_simd(texts[i].as_str()) {
            LineType::Empty => {
                i += 1;
            },
            LineType::Header(_) => {
                parse_header(line, texts[i].as_str(), &mut out);
                out.push('\n');
                i += 1;
            },
            LineType::CodeBlock => {
                let e = parse_code_block(lines, &texts, i, &mut out);
                out.push('\n');
                i = if e < lines.len() {
                    e + 1
                } else {
                    e
                };
            },
            LineType::UnorderedList => {
                let e = parse_unordered_list(lines, &texts, i, &mut out);
                out.push('\n');
                i = e;
            },
            LineType::OrderedList => {
                let e = parse_ordered_list(lines, &texts, i, &mut out);
                out.push('\n');
                i = e;
            },
            LineType::Paragraph => {
                let e = parse_paragraph(lines, &texts, i, &mut out);
                out.push('\n');
                i = e;
            },
        }
        assert(before + render_from(ls, i0) =~= out@ + render_from(ls, i as int));
    }
    assert(render_from(ls, i as int) =~= Seq::<char>::empty());
    assert(out@ + Seq::<char>::empty() =~= out@);
    out
}

/// `n` header marks.
pub open spec fn hashes(n: nat) -> Seq<char> {
    Seq::new(n, |_k: int| '#')
}

proof fn lemma_leading_hashes(n: nat, r: Seq<char>)
    requires
        r.len() > 0,
        r[0] != '#',
    ensures
        leading_count(hashes(n) + r, '#') == n,
    decreases n,
{
    if n > 0 {
        assert((hashes(n) + r).drop_first() =~= hashes((n - 1) as nat) + r);
        lemma_leading_hashes((n - 1) as nat, r);
    }
}

/// A line of `n` header marks, a space and `t`, for `n` from one to six, is
/// a header of level `n`; a document made of that line alone, where `t` is
/// plain trimmed text, renders as the header around `t`. With no mark, or
/// with seven or more, the line is no header.
pub proof fn lemma_header_levels(n: nat, t: Seq<char>)
    requires
        forall|j: int| 0 <= j < t.len() ==> #[trigger] t[j] != '\n',
    ensures
        1 <= n <= 6 ==> line_type(hashes(n) + seq![' '] + t) == LineType::Header(n as usize),
        1 <= n <= 6 && trim(t) == t && (forall|j: int|
            0 <= j < t.len() ==> !is_opener(#[trigger] t[j]) && !is_special(t[j])) ==> markdown_html(
            hashes(n) + seq![' '] + t,
        ) == header_html(n as int, t) + seq!['\n'],
        n >= 7 ==> !(line_type(hashes(n) + seq![' '] + t) is Header),
        n == 0 && (t.len() == 0 || (!is_ws(t[0]) && t[0] != '#')) ==> !(line_type(
            hashes(n) + seq![' '] + t,
        ) is Header),
{
    let l = hashes(n) + seq![' '] + t;
    assert(hashes(n) + seq![' '] + t =~= hashes(n) + (seq![' '] + t));
    lemma_leading_hashes(n, seq![' '] + t);
    if n >= 1 {
        assert(l[0] == '#');
        assert(trim_start(l) == l);
        assert(l[n as int] == ' ');
    }
    if 1 <= n <= 6 {
        assert(line_type(l) == LineType::Header(n as usize));
        if trim(t) == t && (forall|j: int|
            0 <= j < t.len() ==> !is_opener(#[trigger] t[j]) && !is_special(t[j])) {
            assert(l.subrange(n + 1 as int, l.len() as int) =~= t);
            assert(header_text(l, n as int) == t);
            lemma_literal_text_escaped(t);
            lemma_escape_plain(t);
            assert forall|j: int| 0 <= j < l.len() implies l[j] != '\n' by {
                if j > n {
                    assert(l[j] == t[j - n - 1]);
                }
            }
            lemma_first_from_absent(l, '\n', 0);
            assert(crate::lines::lines_of(l) == seq![l]);
            let ls = seq![l];
            assert(render_from(ls, 1) == Seq::<char>::empty());
            assert(render_from(ls, 0) == header_html(n as int, t) + seq!['\n'] + render_from(ls, 1));
            assert(markdown_html(l) =~= header_html(n as int, t) + seq!['\n']);
        }
    }
    if n == 0 && (t.len() == 0 || (!is_ws(t[0]) && t[0] != '#')) {
        assert(hashes(n) =~= Seq::<char>::empty());
        assert(l.drop_first() =~= t);
        assert(trim_start(l) == trim_start(t));
        assert(trim_start(t) == t);
        if t.len() > 0 {
            assert(leading_count(t, '#') == 0);
        }
    }
}

/// `a` and `b` have the same length and the same lines from `lo` on.
pub open spec fn agree_from(a: Seq<Seq<char>>, b: Seq<Seq<char>>, lo: int) -> bool {
    a.len() == b.len() && forall|k: int| lo <= k < a.len() ==> a[k] == b[k]
}

proof fn lemma_agree_ends(a: Seq<Seq<char>>, b: Seq<Seq<char>>, lo: int, j: int, ty: LineType)
    requires
        0 <= lo <= j,
        agree_from(a, b, lo),
    ensures
        fence_end(a, j) == fence_end(b, j),
        run_end(a, j, ty) == run_end(b, j, ty),
    decreases a.len() - j,
{
    if j < a.len() {
        lemma_agree_ends(a, b, lo, j + 1, ty);
    }
}

proof fn lemma_agree_bodies(a: Seq<Seq<char>>, b: Seq<Seq<char>>, lo: int, i: int, j: int)
    requires
        0 <= lo <= i,
        j <= a.len(),
        agree_from(a, b, lo),
    ensures
        code_body(a, i, j) == code_body(b, i, j),
        bullet_items(a, i, j) == bullet_items(b, i, j),
        numbered_items(a, i, j) == numbered_items(b, i, j),
        joined(a, i, j) == joined(b, i, j),
    decreases j - i,
{
    if j > i {
        lemma_agree_bodies(a, b, lo, i, j - 1);
    }
}

proof fn lemma_agree_render(a: Seq<Seq<char>>, b: Seq<Seq<char>>, lo: int, i: int)
    requires
        0 <= lo <= i,
        agree_from(a, b, lo),
    ensures
        render_from(a, i) == render_from(b, i),
    decreases a.len() - i,
{
    if i < a.len() {
        lemma_fence_end(a, i + 1);
        lemma_run_end(a, i, line_type(a[i]));
        lemma_agree_ends(a, b, lo, i + 1, line_type(a[i]));
        lemma_agree_ends(a, b, lo, i, line_type(a[i]));
        let e = fence_end(a, i + 1);
        let r = run_end(a, i, line_type(a[i]));
        lemma_agree_bodies(a, b, lo, i + 1, e);
        lemma_agree_bodies(a, b, lo, i, r);
        if e < a.len() {
            lemma_agree_render(a, b, lo, e + 1);
        }
        lemma_agree_render(a, b, lo, i + 1);
        if r > i {
            lemma_agree_render(a, b, lo, r);
        }
        assert(a[i] == b[i]);
        match line_type(a[i]) {
            LineType::Empty => {},
            LineType::Header(_) => {},
            LineType::CodeBlock => {
                assert(code_block_html(a, i + 1, e) == code_block_html(b, i + 1, e));
                let next = if e < a.len() {
                    e + 1
                } else {
                    e
                };
                assert(render_from(a, next) == render_from(b, next));
                assert(fence_end(b, i + 1) == e);
                assert(render_from(a, i) == code_block_html(a, i + 1, e) + seq!['\n'] + render_from(a, next));
                assert(render_from(b, i) == code_block_html(b, i + 1, e) + seq!['\n'] + render_from(b, next));
            },
            LineType::UnorderedList => {
                assert(bullet_list_html(a, i, r) == bullet_list_html(b, i, r));
            },
            LineType::OrderedList => {
                assert(numbered_list_html(a, i, r) == numbered_list_html(b, i, r));
            },
            LineType::Paragraph => {
                assert(paragraph_html(a, i, r) == paragraph_html(b, i, r));
            },
        }
    }
}

/// Three backticks.
pub open spec fn fence_marker() -> Seq<char> {
    seq!['`', '`', '`']
}

/// A line of three backticks followed by any language tag opens a code
/// block, and the tag never reaches the output: the HTML from that line on
/// is the same as with a bare fence.
pub proof fn lemma_fence_language_dropped(ls: Seq<Seq<char>>, i: int, lang: Seq<char>)
    requires
        0 <= i < ls.len(),
        ls[i] == fence_marker() + lang,
    ensures
        line_type(fence_marker() + lang) == LineType::CodeBlock,
        render_from(ls, i) == render_from(ls.update(i, fence_marker()), i),
{
    lemma_fence_line(lang);
    lemma_fence_line(Seq::empty());
    assert(fence_marker() + Seq::<char>::empty() =~= fence_marker());
    let b = ls.update(i, fence_marker());
    lemma_agree_render(ls, b, i + 1, i + 1);
    lemma_fence_end(ls, i + 1);
    lemma_agree_ends(ls, b, i + 1, i + 1, LineType::CodeBlock);
    let e = fence_end(ls, i + 1);
    lemma_agree_bodies(ls, b, i + 1, i + 1, e);
    if e < ls.len() {
        lemma_agree_render(ls, b, i + 1, e + 1);
    }
    assert(code_block_html(ls, i + 1, e) == code_block_html(b, i + 1, e));
    assert(line_type(b[i]) == LineType::CodeBlock);
    let next = if e < ls.len() {
        e + 1
    } else {
        e
    };
    assert(render_from(ls, next) == render_from(b, next));
    assert(fence_end(b, i + 1) == e);
    assert(render_from(ls, i) == code_block_html(ls, i + 1, e) + seq!['\n'] + render_from(ls, next));
    assert(render_from(b, i) == code_block_html(b, i + 1, e) + seq!['\n'] + render_from(b, next));
}

proof fn lemma_fence_line(lang: Seq<char>)
    ensures
        line_type(fence_marker() + lang) == LineType::CodeBlock,
{
    let l = fence_marker() + lang;
    assert(l[0] == '`' && l[1] == '`' && l[2] == '`');
    assert(trim_start(l) == l);
    assert(leading_count(l, '#') == 0);
    if ordered_dot(l) is Some {
        assert(crate::lines::is_digit(l[0]));
    }
}

/// Whether `c` is an ASCII letter.
pub open spec fn is_ascii_letter(c: char) -> bool {
    (0x41 <= (c as u32) <= 0x5a) || (0x61 <= (c as u32) <= 0x7a)
}

/// With no header mark, or with seven or more, a line of marks, a space
/// and plain text that starts with a letter renders as a paragraph holding
/// the line as it stands.
pub proof fn lemma_non_header_paragraph(n: nat, t: Seq<char>)
    requires
        n == 0 || n >= 7,
        t.len() > 0,
        is_ascii_letter(t[0]),
        forall|j: int|
            0 <= j < t.len() ==> #[trigger] t[j] != '\n' && !is_opener(t[j]) && !is_special(t[j]),
    ensures
        markdown_html(hashes(n) + seq![' '] + t) == "<p>"@ + hashes(n) + seq![' '] + t + "</p>"@
            + seq!['\n'],
{
    let l = hashes(n) + seq![' '] + t;
    lemma_header_levels(n, t);
    assert(!is_ws(t[0]) && t[0] != '#');
    assert forall|j: int| 0 <= j < l.len() implies l[j] != '\n' && !is_opener(#[trigger] l[j])
        && !is_special(l[j]) by {
        if j > n {
            assert(l[j] == t[j - n - 1]);
        }
    }
    let tt = trim_start(l);
    if n == 0 {
        assert(hashes(n) =~= Seq::<char>::empty());
        assert(l.drop_first() =~= t);
        assert(tt == trim_start(t));
        assert(trim_start(t) == t);
        if ordered_dot(t) is Some {
            assert(crate::lines::is_digit(t[0]));
        }
    } else {
        assert(l[0] == '#');
        assert(tt == l);
        if ordered_dot(l) is Some {
            assert(crate::lines::is_digit(l[0]));
        }
    }
    assert(line_type(l) == LineType::Paragraph);
    lemma_first_from_absent(l, '\n', 0);
    assert(crate::lines::lines_of(l) == seq![l]);
    let ls = seq![l];
    lemma_run_end_at(ls, 0, 1, LineType::Paragraph);
    assert(joined(ls, 0, 1) == l);
    lemma_literal_text_escaped(l);
    lemma_escape_plain(l);
    assert(render_from(ls, 1) == Seq::<char>::empty());
    assert(render_from(ls, 0) == paragraph_html(ls, 0, 1) + seq!['\n'] + render_from(ls, 1));
    assert(markdown_html(l) =~= "<p>"@ + hashes(n) + seq![' '] + t + "</p>"@ + seq!['\n']);
}

/// The pieces of `b` between its line feeds, empty ones included.
pub open spec fn pieces(b: Seq<char>) -> Seq<Seq<char>>
    decreases b.len(),
{
    proof {
        lemma_first_from(b, '\n', 0);
    }
    match first_from(b, '\n', 0) {
        Some(k) => seq![b.subrange(0, k)] + pieces(b.subrange(k + 1, b.len() as int)),
        None => seq![b],
    }
}

/// The lines of `ps` joined by line feeds.
pub open spec fn join_lines(ps: Seq<Seq<char>>) -> Seq<char>
    decreases ps.len(),
{
    if ps.len() == 0 {
        Seq::empty()
    } else if ps.len() == 1 {
        ps[0]
    } else {
        join_lines(ps.drop_last()) + seq!['\n'] + ps.last()
    }
}

proof fn lemma_join_cons(x: Seq<char>, ps: Seq<Seq<char>>)
    requires
        ps.len() >= 1,
    ensures
        join_lines(seq![x] + ps) == x + seq!['\n'] + join_lines(ps),
    decreases ps.len(),
{
    let xs = seq![x] + ps;
    if ps.len() == 1 {
        assert(xs.drop_last() =~= seq![x]);
        assert(join_lines(seq![x]) == x);
        assert(xs.last() == ps[0]);
        assert(join_lines(xs) =~= x + seq!['\n'] + join_lines(ps));
    } else {
        assert(xs.drop_last() =~= seq![x] + ps.drop_last());
        lemma_join_cons(x, ps.drop_last());
        assert(join_lines(xs) =~= x + seq!['\n'] + join_lines(ps));
    }
}

proof fn lemma_join_pieces(b: Seq<char>)
    ensures
        pieces(b).len() >= 1,
        join_lines(pieces(b)) == b,
    decreases b.len(),
{
    lemma_first_from(b, '\n', 0);
    if let Some(k) = first_from(b, '\n', 0) {
        let rest = b.subrange(k + 1, b.len() as int);
        lemma_join_pieces(rest);
        lemma_join_cons(b.subrange(0, k), pieces(rest));
        assert(b =~= b.subrange(0, k) + seq!['\n'] + rest);
    }
}

/// Splitting off a first line that holds no line feed.
proof fn lemma_lines_cons(a: Seq<char>, rest: Seq<char>)
    requires
        forall|j: int| 0 <= j < a.len() ==> #[trigger] a[j] != '\n',
    ensures
        crate::lines::lines_of(a + seq!['\n'] + rest) == seq![crate::lines::strip_cr(a)]
            + crate::lines::lines_of(rest),
{
    let s = a + seq!['\n'] + rest;
    crate::scan::lemma_first_from_found(s, '\n', 0, a.len() as int);
    assert(s.subrange(0, a.len() as int) =~= a);
    assert(s.subrange(a.len() + 1 as int, s.len() as int) =~= rest);
}

proof fn lemma_lines_pieces(b: Seq<char>, f: Seq<char>)
    requires
        forall|j: int| 0 <= j < b.len() ==> #[trigger] b[j] != '\r',
        f.len() > 0,
        f.last() != '\r',
        forall|j: int| 0 <= j < f.len() ==> #[trigger] f[j] != '\n',
    ensures
        crate::lines::lines_of(b + seq!['\n'] + f) == pieces(b) + seq![f],
    decreases b.len(),
{
    lemma_first_from(b, '\n', 0);
    match first_from(b, '\n', 0) {
        Some(k) => {
            let head = b.subrange(0, k);
            let rest = b.subrange(k + 1, b.len() as int);
            assert(b + seq!['\n'] + f =~= head + seq!['\n'] + (rest + seq!['\n'] + f));
            lemma_lines_cons(head, rest + seq!['\n'] + f);
            lemma_lines_pieces(rest, f);
            if head.len() > 0 {
                assert(head.last() == b[k - 1]);
            }
            assert(crate::lines::strip_cr(head) == head);
            assert(pieces(b) == seq![head] + pieces(rest));
            assert(crate::lines::lines_of(b + seq!['\n'] + f) =~= pieces(b) + seq![f]);
        },
        None => {
            lemma_lines_cons(b, f);
            if b.len() > 0 {
                assert(b.last() == b[b.len() - 1]);
            }
            assert(crate::lines::strip_cr(b) == b);
            lemma_first_from_absent(f, '\n', 0);
            assert(crate::lines::lines_of(f) == seq![f]);
            assert(crate::lines::lines_of(b + seq!['\n'] + f) =~= pieces(b) + seq![f]);
        },
    }
}

proof fn lemma_code_body_join(ls: Seq<Seq<char>>, lo: int, hi: int)
    requires
        0 <= lo <= hi <= ls.len(),
    ensures
        code_body(ls, lo, hi) == escape(join_lines(ls.subrange(lo, hi))),
    decreases hi - lo,
{
    let sub = ls.subrange(lo, hi);
    if hi == lo {
        assert(escape(Seq::<char>::empty()) =~= Seq::<char>::empty());
    } else if hi == lo + 1 {
        assert(join_lines(sub) == ls[lo]);
    } else {
        lemma_code_body_join(ls, lo, hi - 1);
        assert(sub.drop_last() =~= ls.subrange(lo, hi - 1));
        let j = join_lines(ls.subrange(lo, hi - 1));
        crate::escape::lemma_escape_append(j + seq!['\n'], ls[hi - 1]);
        crate::escape::lemma_escape_append(j, seq!['\n']);
        crate::escape::lemma_escape_single('\n');
    }
}

/// A document made of a fence with any language tag, a body whose lines are
/// no fences, and a closing fence renders as one code block holding the
/// escaped body; the tag never reaches the output.
pub proof fn lemma_code_fence_document(lang: Seq<char>, body: Seq<char>)
    requires
        forall|j: int| 0 <= j < lang.len() ==> #[trigger] lang[j] != '\n' && lang[j] != '\r',
        forall|j: int| 0 <= j < body.len() ==> #[trigger] body[j] != '\r',
        forall|k: int| 0 <= k < pieces(body).len() ==> !is_fence(#[trigger] pieces(body)[k]),
    ensures
        markdown_html(fence_marker() + lang + seq!['\n'] + body + seq!['\n'] + fence_marker())
            == "<pre><code>"@ + escape(body) + "</code></pre>"@ + seq!['\n'],
{
    let first = fence_marker() + lang;
    let close = fence_marker();
    let rest = body + seq!['\n'] + close;
    let d = fence_marker() + lang + seq!['\n'] + body + seq!['\n'] + fence_marker();
    assert(d =~= first + seq!['\n'] + rest);
    assert forall|j: int| 0 <= j < first.len() implies #[trigger] first[j] != '\n' by {
        if j >= 3 {
            assert(first[j] == lang[j - 3]);
        }
    }
    lemma_lines_cons(first, rest);
    assert(first.last() != '\r') by {
        if lang.len() > 0 {
            assert(first.last() == lang[lang.len() - 1]);
        }
    }
    assert(crate::lines::strip_cr(first) == first);
    lemma_lines_pieces(body, close);
    let ps = pieces(body);
    let m = ps.len() as int;
    let ls = seq![first] + (ps + seq![close]);
    assert(crate::lines::lines_of(d) =~= ls);
    lemma_fence_line(lang);
    assert(trim_start(close) == close);
    assert(is_fence(close));
    assert forall|k: int| 1 <= k < m + 1 implies !is_fence(#[trigger] ls[k]) by {
        assert(ls[k] == ps[k - 1]);
    }
    lemma_fence_end_at(ls, 1, m + 1);
    lemma_code_body_join(ls, 1, m + 1);
    assert(ls.subrange(1, m + 1) =~= ps);
    lemma_join_pieces(body);
    assert(render_from(ls, m + 2) == Seq::<char>::empty());
    assert(render_from(ls, 0) == code_block_html(ls, 1, m + 1) + seq!['\n'] + render_from(
        ls,
        m + 2,
    ));
    assert(markdown_html(d) =~= "<pre><code>"@ + escape(body) + "</code></pre>"@ + seq!['\n']);
}

} // verus!
