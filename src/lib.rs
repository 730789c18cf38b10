//! Conversion of a Markdown subset into HTML.
//!
//! The library has four layers: scan primitives (`scan`, `escape`), line
//! splitting and classification (`lines`), the inline renderer (`inline`)
//! and the block splitter (`block`). Each executable function is verified
//! against a mathematical model of what it returns.
use vstd::prelude::*;

pub mod block;
pub mod escape;
pub mod inline;
pub mod lines;
pub mod scan;
pub mod text;

pub use escape::{html_escape_scalar_into, html_escape_simd_into};
pub use lines::{detect_line_type_simd, LineType};
pub use scan::{
    count_leading_bytes_simd, find_delimiter_scalar, find_delimiter_simd, is_all_digits_simd,
    is_code_block_start_simd,
};

use block::{markdown_html, render_blocks};
use lines::split_lines;
use text::{chars_of, string_of};

verus! {

/// A Markdown document ready to be rendered as HTML.
pub struct MarkdownParser<'a> {
    input: &'a str,
}

impl<'a> View for MarkdownParser<'a> {
    type V = Seq<char>;

    closed spec fn view(&self) -> Seq<char> {
        self.input@
    }
}

impl<'a> MarkdownParser<'a> {
    /// A parser over `input`.
    pub fn new(input: &'a str) -> (r: Self)
        ensures
            r@ == input@,
    {
        MarkdownParser { input }
    }

    /// The HTML for the whole document: each block rendered in order and
    /// followed by a line feed.
    pub fn parse(&self) -> (r: String)
        ensures
            r@ == markdown_html(self@),
    {
        let cs = chars_of(self.input);
        let lines = split_lines(cs.as_slice());
        let out = render_blocks(&lines);
        string_of(&out)
    }
}

} // verus!
