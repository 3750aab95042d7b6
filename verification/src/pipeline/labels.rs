//! Which classes of regions hold text, and how their text is written down.
use crate::strings::{join, same_text};
use vstd::prelude::*;
use vstd::string::*;

verus! {

/// Regions of this class hold a single line of text.
pub open spec fn single_line(label: Seq<char>) -> bool {
    ||| label == "paragraph_title"@
    ||| label == "number"@
    ||| label == "doc_title"@
    ||| label == "footnote"@
    ||| label == "header"@
    ||| label == "algorithm"@
    ||| label == "footer"@
    ||| label == "formula_number"@
}

/// Regions of this class hold text that may run over several lines.
pub open spec fn multiline_text(label: Seq<char>) -> bool {
    ||| label == "text"@
    ||| label == "abstract"@
    ||| label == "content"@
    ||| label == "figure_title"@
    ||| label == "reference"@
    ||| label == "aside_text"@
    ||| label == "reference_content"@
}

/// Regions of this class hold text.
pub open spec fn holds_text(label: Seq<char>) -> bool {
    single_line(label) || multiline_text(label)
}

/// Whether regions of this class hold a single line of text.
pub fn is_single_line_label(label: &str) -> (r: bool)
    ensures
        r == single_line(label@),
{
    same_text(label, "paragraph_title") || same_text(label, "number") || same_text(
        label,
        "doc_title",
    ) || same_text(label, "footnote") || same_text(label, "header") || same_text(label, "algorithm")
        || same_text(label, "footer") || same_text(label, "formula_number")
}

/// Whether regions of this class hold text that may run over several lines.
pub fn is_multiline_text_label(label: &str) -> (r: bool)
    ensures
        r == multiline_text(label@),
{
    same_text(label, "text") || same_text(label, "abstract") || same_text(label, "content")
        || same_text(label, "figure_title") || same_text(label, "reference") || same_text(
        label,
        "aside_text",
    ) || same_text(label, "reference_content")
}

/// Whether regions of this class hold text.
pub fn is_text_label(label: &str) -> (r: bool)
    ensures
        r == holds_text(label@),
{
    is_single_line_label(label) || is_multiline_text_label(label)
}

/// The lines of a region as Markdown: titles on one line behind their marks, other text
/// line by line. Nothing for no lines.
pub open spec fn markdown(label: Seq<char>, lines: Seq<Seq<char>>) -> Seq<char> {
    if lines.len() == 0 {
        Seq::empty()
    } else if label == "doc_title"@ {
        "# "@ + crate::strings::joined(lines, " "@)
    } else if label == "paragraph_title"@ {
        "## "@ + crate::strings::joined(lines, " "@)
    } else {
        crate::strings::joined(lines, "\n"@)
    }
}

/// The lines of a region as Markdown.
pub fn markdown_text(label: &str, lines: &Vec<String>) -> (r: String)
    ensures
        r@ == markdown(label@, crate::strings::texts(lines@)),
{
    if lines.len() == 0 {
        let r: String = String::new();
        assert(r@ =~= markdown(label@, crate::strings::texts(lines@)));
        return r;
    }
    if same_text(label, "doc_title") {
        let mut r: String = "# ".to_owned();
        r.append(join(lines, " ").as_str());
        r
    } else if same_text(label, "paragraph_title") {
        let mut r: String = "## ".to_owned();
        r.append(join(lines, " ").as_str());
        r
    } else {
        join(lines, "\n")
    }
}

/// A formula as Markdown, nothing for one without text.
pub open spec fn formula_block(latex: Seq<char>) -> Seq<char> {
    "$$\n"@ + crate::strings::trimmed(latex) + "\n$$"@
}

/// A formula as Markdown.
pub fn formula_text(latex: &str) -> (r: String)
    ensures
        r@ == formula_block(latex@),
{
    let mut r: String = "$$\n".to_owned();
    r.append(latex.trim());
    r.append("\n$$");
    r
}

} // verus!
