use vstd::prelude::*;
use vstd::string::*;

use super::parser::{error_report, error_view};
use super::{primary_view, Report, ReportAnnotation, ReportView};
use crate::files::Node;
use crate::lex::LexError;
use crate::text::push_str;

verus! {

/// The text that `{:?}` shows for a char.
pub uninterp spec fn char_debug_text(c: char) -> Seq<char>;

/// `format!("{c:?}")`: the char quoted, escaped as `char::escape_debug` does.
/// Claimed: the result is named by `char_debug_text`, and a printable ASCII
/// char other than a quote or a backslash is shown as itself between quotes.
#[verifier::external_body]
pub(crate) fn char_debug(c: char) -> (s: String)
    ensures
        s@ == char_debug_text(c),
        (' ' <= c && c <= '~' && c != '\'' && c != '\\') ==> s@ == seq!['\'', c, '\''],
{
    format!("{c:?}")
}

pub open spec fn lex_error_title(e: LexError) -> Seq<char> {
    match e {
        LexError::UnexpectedChar(c) => "unexpected char "@ + char_debug_text(c),
        LexError::UnclosedComment => "unclosed comment"@,
        LexError::UnclosedString => "unclosed string literal"@,
        LexError::NumberError => "number cannot contain more than one decimal"@,
    }
}

pub open spec fn lex_error_view(err: Node<LexError>) -> ReportView {
    error_view(err.1, lex_error_title(err.0), seq![primary_view(err.1)], Seq::empty())
}

/// The report for a lexical error at a span.
pub fn lex_error_report(err: Node<LexError>) -> (r: Report)
    ensures
        r@ == lex_error_view(err),
{
    let Node(e, span) = err;
    let title = match e {
        LexError::UnexpectedChar(c) => {
            let mut t = String::from_str("unexpected char ");
            let shown = char_debug(c);
            push_str(&mut t, shown.as_str());
            t
        }
        LexError::UnclosedComment => String::from_str("unclosed comment"),
        LexError::UnclosedString => String::from_str("unclosed string literal"),
        LexError::NumberError => String::from_str("number cannot contain more than one decimal"),
    };
    let mut annotations = Vec::new();
    annotations.push(ReportAnnotation::primary(span));
    let helps = Vec::new();
    assert(annotations@.map_values(|a: ReportAnnotation| a@) =~= seq![primary_view(span)]);
    assert(helps@.map_values(|h: super::ReportHelp| h@) =~= Seq::<super::HelpView>::empty());
    error_report(span, title, annotations, helps)
}

} // verus!
