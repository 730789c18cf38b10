use md2html::{
    count_leading_bytes_simd, detect_line_type_simd, find_delimiter_scalar, find_delimiter_simd,
    html_escape_scalar_into, html_escape_simd_into, is_all_digits_simd, is_code_block_start_simd,
    LineType,
};

#[test]
fn test_html_escape_simd() {
    let mut output = String::new();
    html_escape_simd_into("Hello & <world> \"test\" 'quote'", &mut output);
    assert_eq!(
        output,
        "Hello &amp; &lt;world&gt; &quot;test&quot; &#39;quote&#39;"
    );
}

#[test]
fn test_html_escape_simd_no_special() {
    let mut output = String::new();
    html_escape_simd_into("Hello world with no special chars", &mut output);
    assert_eq!(output, "Hello world with no special chars");
}

#[test]
fn test_find_delimiter_simd() {
    assert_eq!(find_delimiter_simd("hello*world", b'*', 0), Some(5));
    assert_eq!(find_delimiter_simd("hello*world", b'*', 6), None);
    assert_eq!(find_delimiter_simd("hello", b'*', 0), None);
    assert_eq!(find_delimiter_simd("***", b'*', 1), Some(1));
}

#[test]
fn test_detect_line_type_simd() {
    assert_eq!(detect_line_type_simd("# Header"), LineType::Header(1));
    assert_eq!(detect_line_type_simd("### Header 3"), LineType::Header(3));
    assert_eq!(detect_line_type_simd("- Item"), LineType::UnorderedList);
    assert_eq!(detect_line_type_simd("* Item"), LineType::UnorderedList);
    assert_eq!(detect_line_type_simd("+ Item"), LineType::UnorderedList);
    assert_eq!(detect_line_type_simd("1. Item"), LineType::OrderedList);
    assert_eq!(detect_line_type_simd("42. Item"), LineType::OrderedList);
    assert_eq!(detect_line_type_simd("```"), LineType::CodeBlock);
    assert_eq!(detect_line_type_simd("```rust"), LineType::CodeBlock);
    assert_eq!(detect_line_type_simd("Regular text"), LineType::Paragraph);
    assert_eq!(detect_line_type_simd(""), LineType::Empty);
    assert_eq!(detect_line_type_simd("   "), LineType::Empty);
}

#[test]
fn test_simd_specific_functions() {
    assert_eq!(count_leading_bytes_simd(b"###hello", b'#'), 3);
    assert_eq!(count_leading_bytes_simd(b"hello", b'#'), 0);
    assert_eq!(count_leading_bytes_simd(b"######", b'#'), 6);

    assert!(is_all_digits_simd(b"12345"));
    assert!(!is_all_digits_simd(b"123a5"));
    assert!(!is_all_digits_simd(b""));

    assert!(is_code_block_start_simd(b"```rust"));
    assert!(is_code_block_start_simd(b"```"));
    assert!(!is_code_block_start_simd(b"``"));
    assert!(!is_code_block_start_simd(b"`code`"));
}

#[test]
fn line_type_edge_cases() {
    assert_eq!(detect_line_type_simd("####### x"), LineType::Paragraph);
    assert_eq!(detect_line_type_simd("###### x"), LineType::Header(6));
    assert_eq!(detect_line_type_simd("#x"), LineType::Paragraph);
    assert_eq!(detect_line_type_simd("1.2. x"), LineType::Paragraph);
    assert_eq!(detect_line_type_simd(". x"), LineType::Paragraph);
    assert_eq!(detect_line_type_simd("-x"), LineType::Paragraph);
    assert_eq!(detect_line_type_simd("  ```py"), LineType::CodeBlock);
    assert_eq!(detect_line_type_simd("\u{a0}- a"), LineType::UnorderedList);
}

fn both_escapes(s: &str) -> (String, String) {
    let mut a = String::from("pre:");
    let mut b = String::from("pre:");
    html_escape_simd_into(s, &mut a);
    html_escape_scalar_into(s, &mut b);
    (a, b)
}

#[test]
fn escape_backends_agree() {
    let corpus = ["", "&", "a", "<<<<", "''\"\"", "&&&&&", "x<y>z", "é&ü", "plain text", "\u{1F600}'"];
    for s in corpus.iter() {
        let (a, b) = both_escapes(s);
        assert_eq!(a, b);
    }
    assert_eq!(both_escapes("é&ü").0, "pre:é&amp;ü");
    assert_eq!(both_escapes("<<").1, "pre:&lt;&lt;");
}

#[test]
fn find_backends_agree() {
    let corpus = ["", "*", "**", "a*b*c", "héllo*", "***"];
    for s in corpus.iter() {
        for start in 0..8 {
            assert_eq!(find_delimiter_simd(s, b'*', start), find_delimiter_scalar(s, b'*', start));
        }
    }
    assert_eq!(find_delimiter_scalar("héllo*", b'*', 0), Some(6));
    assert_eq!(find_delimiter_simd("héllo*", b'*', 7), None);
}

#[test]
fn line_type_backends_agree() {
    let corpus = [
        "", " ", "#", "# a", "####### a", "- a", "-", "1. a", "12.5 a", "1.", "```", "``",
        "  ```x", "é. a", "1é. a", "\u{3000}# a", "* ", "+x", "text", "3) a",
    ];
    for s in corpus.iter() {
        let chars: Vec<char> = s.chars().collect();
        assert_eq!(detect_line_type_simd(s), md2html::lines::line_type_of(&chars));
    }
}

#[test]
fn quotes_before_markup_are_escaped() {
    let (a, b) = both_escapes("a\"b&c'd<e");
    assert_eq!(a, "pre:a&quot;b&amp;c&#39;d&lt;e");
    assert_eq!(a, b);
    let many = "\"".repeat(1000);
    let (c, d) = both_escapes(&many);
    assert_eq!(c, d);
    assert_eq!(c.len(), 4 + 6 * 1000);
}
