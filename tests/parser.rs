use md2html::MarkdownParser;

fn render(s: &str) -> String {
    MarkdownParser::new(s).parse()
}

#[test]
fn test_headers() {
    let parser = MarkdownParser::new("# Header 1\n## Header 2\n### Header 3");
    let result = parser.parse();
    assert!(result.contains("<h1>Header 1</h1>"));
    assert!(result.contains("<h2>Header 2</h2>"));
    assert!(result.contains("<h3>Header 3</h3>"));
}

#[test]
fn test_bold_and_italic() {
    let parser = MarkdownParser::new("This is **bold** and *italic* text");
    let result = parser.parse();
    assert!(result.contains("<strong>bold</strong>"));
    assert!(result.contains("<em>italic</em>"));
}

#[test]
fn test_inline_code() {
    let parser = MarkdownParser::new("Use `code` for inline code");
    let result = parser.parse();
    assert!(result.contains("<code>code</code>"));
}

#[test]
fn test_links() {
    let parser = MarkdownParser::new("This is a [link](https://example.com)");
    let result = parser.parse();
    assert!(result.contains("<a href=\"https://example.com\">link</a>"));
}

#[test]
fn test_unordered_list() {
    let parser = MarkdownParser::new("- Item 1\n- Item 2\n- Item 3");
    let result = parser.parse();
    assert!(result.contains("<ul>"));
    assert!(result.contains("<li>Item 1</li>"));
    assert!(result.contains("<li>Item 2</li>"));
    assert!(result.contains("<li>Item 3</li>"));
    assert!(result.contains("</ul>"));
}

#[test]
fn test_ordered_list() {
    let parser = MarkdownParser::new("1. First\n2. Second\n3. Third");
    let result = parser.parse();
    assert!(result.contains("<ol>"));
    assert!(result.contains("<li>First</li>"));
    assert!(result.contains("<li>Second</li>"));
    assert!(result.contains("<li>Third</li>"));
    assert!(result.contains("</ol>"));
}

#[test]
fn test_code_block() {
    let parser = MarkdownParser::new("```\ncode block\nwith multiple lines\n```");
    let result = parser.parse();
    assert!(result.contains("<pre><code>"));
    assert!(result.contains("code block\nwith multiple lines"));
    assert!(result.contains("</code></pre>"));
}

#[test]
fn test_paragraph() {
    let parser = MarkdownParser::new("This is a paragraph\nwith multiple lines.");
    let result = parser.parse();
    assert!(result.contains("<p>This is a paragraph with multiple lines.</p>"));
}

#[test]
fn header_levels_one_to_six() {
    for n in 1..=6 {
        let line = format!("{} title", "#".repeat(n));
        assert_eq!(render(&line), format!("<h{n}>title</h{n}>\n"));
    }
}

#[test]
fn header_levels_zero_and_seven_are_paragraphs() {
    assert_eq!(render(" title"), "<p> title</p>\n");
    assert_eq!(render("####### title"), "<p>####### title</p>\n");
}

#[test]
fn header_content_is_trimmed_and_rendered() {
    assert_eq!(render("  ##   a **b**  "), "<h2>a <strong>b</strong></h2>\n");
}

#[test]
fn unterminated_emphasis_is_literal() {
    assert_eq!(render("*hello"), "<p>*hello</p>\n");
    assert_eq!(render("_x"), "<p>_x</p>\n");
}

#[test]
fn nested_bold_and_italic() {
    assert_eq!(
        render("**bold *and italic* text**"),
        "<p><strong>bold <em>and italic</em> text</strong></p>\n"
    );
}

#[test]
fn bold_closes_at_first_star_pair() {
    assert_eq!(render("**a*b**"), "<p><strong>a*b</strong></p>\n");
    assert_eq!(render("**a** b**"), "<p><strong>a</strong> b<em></em></p>\n");
    assert_eq!(render("**a*"), "<p><em></em>a*</p>\n");
}

#[test]
fn bold_contains_rendered_markup() {
    assert_eq!(
        render("**a `c` [l](u)**"),
        "<p><strong>a <code>c</code> <a href=\"u\">l</a></strong></p>\n"
    );
}

#[test]
fn italic_content_is_copied_verbatim() {
    assert_eq!(render("_a<b_"), "<p><em>a<b</em></p>\n");
}

#[test]
fn link_with_escaping() {
    assert_eq!(
        render("[a&b](http://x?y=1&z=2)"),
        "<p><a href=\"http://x?y=1&amp;z=2\">a&amp;b</a></p>\n"
    );
}

#[test]
fn link_label_is_not_rendered() {
    assert_eq!(render("[**b**](u)"), "<p><a href=\"u\">**b**</a></p>\n");
}

#[test]
fn failed_link_is_literal() {
    assert_eq!(render("[a] (b)"), "<p>[a] (b)</p>\n");
    assert_eq!(render("[a](b"), "<p>[a](b</p>\n");
    assert_eq!(render("[a"), "<p>[a</p>\n");
}

#[test]
fn inline_code_is_escaped() {
    assert_eq!(render("`<a>`"), "<p><code>&lt;a&gt;</code></p>\n");
    assert_eq!(render("`open"), "<p>`open</p>\n");
}

#[test]
fn code_fence_language_is_dropped() {
    assert_eq!(render("```\nx < y\n```"), "<pre><code>x &lt; y</code></pre>\n");
    assert_eq!(render("```rust\nlet a = 1;\n```"), "<pre><code>let a = 1;</code></pre>\n");
}

#[test]
fn unterminated_code_fence_runs_to_end() {
    assert_eq!(render("```\na\n\nb"), "<pre><code>a\n\nb</code></pre>\n");
}

#[test]
fn ordered_list_exact() {
    assert_eq!(
        render("1. First\n2. Second"),
        "<ol>\n  <li>First</li>\n  <li>Second</li>\n</ol>\n"
    );
}

#[test]
fn unordered_list_exact() {
    assert_eq!(render("- a\n* b\n+ c"), "<ul>\n  <li>a</li>\n  <li>b</li>\n  <li>c</li>\n</ul>\n");
}

#[test]
fn paragraph_line_joining() {
    assert_eq!(render("line one\nline two"), "<p>line one line two</p>\n");
}

#[test]
fn blocks_in_sequence() {
    assert_eq!(
        render("# T\n\npara\n- x\n1. y\n```\nc\n```\nend"),
        "<h1>T</h1>\n<p>para</p>\n<ul>\n  <li>x</li>\n</ul>\n<ol>\n  <li>y</li>\n</ol>\n<pre><code>c</code></pre>\n<p>end</p>\n"
    );
}

#[test]
fn empty_and_blank_input() {
    assert_eq!(render(""), "");
    assert_eq!(render("\n\n   \n"), "");
}

#[test]
fn crlf_lines() {
    assert_eq!(render("a\r\nb"), "<p>a b</p>\n");
}

#[test]
fn literal_metacharacters_are_escaped() {
    assert_eq!(
        render("a & b < c > d \"e\" 'f'"),
        "<p>a &amp; b &lt; c &gt; d &quot;e&quot; &#39;f&#39;</p>\n"
    );
}

#[test]
fn multibyte_text_is_kept() {
    assert_eq!(render("héllo **wörld** ✓"), "<p>héllo <strong>wörld</strong> ✓</p>\n");
}

#[test]
fn unicode_whitespace_is_trimmed() {
    assert_eq!(render("#\u{3000}x"), "<p>#\u{3000}x</p>\n");
    assert_eq!(render("# x\u{3000}"), "<h1>x</h1>\n");
}

#[test]
fn fence_language_never_changes_output() {
    let body = "a < b\n\"q\" & 'r'";
    let bare = render(&format!("```\n{body}\n```"));
    let tagged = render(&format!("```rust\n{body}\n```"));
    assert_eq!(bare, tagged);
    assert_eq!(
        bare,
        "<pre><code>a &lt; b\n&quot;q&quot; &amp; &#39;r&#39;</code></pre>\n"
    );
}
