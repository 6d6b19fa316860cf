use vstd::prelude::*;
use vstd::string::*;

use super::parser::{error_report, error_view};
use super::{context_view, primary_view, Report, ReportAnnotation, ReportView};
use crate::files::Span;
use crate::text::push_str;

verus! {

/// An attribute defined twice in one attribute set.
#[derive(Clone, Debug)]
pub struct DuplicateAttrError {
    pub span: Span,
    pub first: Span,
    pub name: String,
}

/// The report for the attribute `name`, defined again at `span` after `first`.
pub open spec fn duplicate_attr_report(span: Span, first: Span, name: Seq<char>) -> ReportView {
    error_view(
        span,
        "duplicate attribute "@ + name,
        seq![primary_view(span), context_view(first, "first defined here"@)],
        Seq::empty(),
    )
}

impl DuplicateAttrError {
    pub fn to_report(self) -> (r: Report)
        ensures
            r@ == duplicate_attr_report(self.span, self.first, self.name@),
    {
        let mut title = String::from_str("duplicate attribute ");
        push_str(&mut title, self.name.as_str());
        let mut annotations = Vec::new();
        annotations.push(ReportAnnotation::primary(self.span));
        annotations.push(ReportAnnotation::context(self.first, "first defined here"));
        let helps = Vec::new();
        assert(annotations@.map_values(|a: ReportAnnotation| a@) =~= seq![primary_view(self.span), context_view(self.first, "first defined here"@)]);
        assert(helps@.map_values(|h: super::ReportHelp| h@) =~= Seq::<super::HelpView>::empty());
        error_report(self.span, title, annotations, helps)
    }
}

/// A name bound twice by the patterns of one binding group.
#[derive(Clone, Debug)]
pub struct DuplicatePatternBindingError {
    pub span: Span,
    pub first: Span,
    pub name: String,
}

/// The report for the name `name`, bound again at `span` after `first`.
pub open spec fn duplicate_binding_report(span: Span, first: Span, name: Seq<char>) -> ReportView {
    error_view(
        span,
        "duplicate bound attribute "@ + name,
        seq![primary_view(span), context_view(first, "first bound here"@)],
        Seq::empty(),
    )
}

impl DuplicatePatternBindingError {
    pub fn to_report(self) -> (r: Report)
        ensures
            r@ == duplicate_binding_report(self.span, self.first, self.name@),
    {
        let mut title = String::from_str("duplicate bound attribute ");
        push_str(&mut title, self.name.as_str());
        let mut annotations = Vec::new();
        annotations.push(ReportAnnotation::primary(self.span));
        annotations.push(ReportAnnotation::context(self.first, "first bound here"));
        let helps = Vec::new();
        assert(annotations@.map_values(|a: ReportAnnotation| a@) =~= seq![primary_view(self.span), context_view(self.first, "first bound here"@)]);
        assert(helps@.map_values(|h: super::ReportHelp| h@) =~= Seq::<super::HelpView>::empty());
        error_report(self.span, title, annotations, helps)
    }
}

/// A `let` binding whose pattern binds no name: it only destructures.
#[derive(Clone, Copy, Debug)]
pub struct UnnamedLetBindingError {
    pub span: Span,
}

/// The report for the `let` binding whose pattern is at `span`.
pub open spec fn unnamed_let_binding_report(span: Span) -> ReportView {
    error_view(span, "let bindings must bind a name"@, seq![primary_view(span)], Seq::empty())
}

impl UnnamedLetBindingError {
    pub fn to_report(self) -> (r: Report)
        ensures
            r@ == unnamed_let_binding_report(self.span),
    {
        let mut annotations = Vec::new();
        annotations.push(ReportAnnotation::primary(self.span));
        let helps = Vec::new();
        assert(annotations@.map_values(|a: ReportAnnotation| a@) =~= seq![primary_view(self.span)]);
        assert(helps@.map_values(|h: super::ReportHelp| h@) =~= Seq::<super::HelpView>::empty());
        error_report(self.span, String::from_str("let bindings must bind a name"), annotations, helps)
    }
}

} // verus!
