use vstd::prelude::*;
use vstd::string::*;

use super::{
    context_view, patch_view, primary_view, AnnotationView, HelpView, PatchView, Report,
    ReportAnnotation, ReportHelp, ReportLevel, ReportPatch, ReportView,
};
use crate::files::{span_after, span_before, Node, Span};
use crate::lex::token::token_display;
use crate::lex::Token;
use crate::parse::parser::token::closing_text;
use crate::parse::Delim;
use crate::text::push_str;

verus! {

/// An error report with the given parts.
pub open spec fn error_view(span: Span, title: Seq<char>, annotations: Seq<AnnotationView>, helps: Seq<HelpView>) -> ReportView {
    ReportView { level: ReportLevel::Error, span, title, annotations, helps }
}

pub open spec fn help_view(title: Seq<char>, patches: Seq<PatchView>) -> HelpView {
    HelpView { title, patches }
}

/// Builds an error report; its parts must be given already as values.
pub fn error_report(span: Span, title: String, annotations: Vec<ReportAnnotation>, helps: Vec<ReportHelp>) -> (r: Report)
    ensures
        r@ == error_view(span, title@, annotations@.map_values(|a: ReportAnnotation| a@), helps@.map_values(|h: ReportHelp| h@)),
{
    Report { level: ReportLevel::Error, span, title, annotations, helps }
}

fn one_annotation(a: ReportAnnotation) -> (v: Vec<ReportAnnotation>)
    ensures
        v@.map_values(|x: ReportAnnotation| x@) == seq![a@],
{
    let mut v = Vec::new();
    v.push(a);
    assert(v@.map_values(|x: ReportAnnotation| x@) =~= seq![a@]);
    v
}

fn two_annotations(a: ReportAnnotation, b: ReportAnnotation) -> (v: Vec<ReportAnnotation>)
    ensures
        v@.map_values(|x: ReportAnnotation| x@) == seq![a@, b@],
{
    let mut v = Vec::new();
    v.push(a);
    v.push(b);
    assert(v@.map_values(|x: ReportAnnotation| x@) =~= seq![a@, b@]);
    v
}

fn no_helps() -> (v: Vec<ReportHelp>)
    ensures
        v@.map_values(|x: ReportHelp| x@) == Seq::<HelpView>::empty(),
{
    let v = Vec::new();
    assert(v@.map_values(|x: ReportHelp| x@) =~= Seq::<HelpView>::empty());
    v
}

fn one_help(h: ReportHelp) -> (v: Vec<ReportHelp>)
    ensures
        v@.map_values(|x: ReportHelp| x@) == seq![h@],
{
    let mut v = Vec::new();
    v.push(h);
    assert(v@.map_values(|x: ReportHelp| x@) =~= seq![h@]);
    v
}

fn two_helps(h: ReportHelp, g: ReportHelp) -> (v: Vec<ReportHelp>)
    ensures
        v@.map_values(|x: ReportHelp| x@) == seq![h@, g@],
{
    let mut v = Vec::new();
    v.push(h);
    v.push(g);
    assert(v@.map_values(|x: ReportHelp| x@) =~= seq![h@, g@]);
    v
}

/// `a` followed by `b`, as a new string.
fn concat(a: &str, b: &str) -> (s: String)
    ensures
        s@ == a@ + b@,
{
    let mut s = String::from_str(a);
    push_str(&mut s, b);
    s
}

/// A delimiter that was not closed before the end of the input.
#[derive(Clone, Debug)]
pub struct UnclosedDelimError {
    pub span: Span,
    pub opening: Node<Delim>,
    pub closing: Node<Delim>,
}

pub open spec fn unclosed_delim_view(err: UnclosedDelimError) -> ReportView {
    error_view(
        err.span,
        "unclosed delimiter"@,
        seq![primary_view(err.closing.1), context_view(err.opening.1, "opened here"@)],
        seq![help_view("consider closing here"@, seq![patch_view(err.closing.1, closing_text(err.opening.0))])],
    )
}

impl UnclosedDelimError {
    pub fn to_report(self) -> (r: Report)
        ensures
            r@ == unclosed_delim_view(self),
    {
        let help = ReportHelp::new("consider closing here").with_patch(self.closing.1, self.opening.0.closing());
        assert(help@.patches =~= seq![patch_view(self.closing.1, closing_text(self.opening.0))]);
        error_report(
            self.span,
            String::from_str("unclosed delimiter"),
            two_annotations(ReportAnnotation::primary(self.closing.1), ReportAnnotation::context(self.opening.1, "opened here")),
            one_help(help),
        )
    }
}

/// A closing delimiter that does not match the opening one.
#[derive(Clone, Debug)]
pub struct MismatchedDelimError {
    pub span: Span,
    pub opening: Node<Delim>,
    pub closing: Node<Delim>,
}

pub open spec fn mismatched_delim_view(err: MismatchedDelimError) -> ReportView {
    error_view(
        err.span,
        "mismatched delimiter"@,
        seq![primary_view(err.closing.1), context_view(err.opening.1, "opened here"@)],
        seq![help_view("use correct delimiter"@, seq![patch_view(err.closing.1, closing_text(err.opening.0))])],
    )
}

impl MismatchedDelimError {
    pub fn to_report(self) -> (r: Report)
        ensures
            r@ == mismatched_delim_view(self),
    {
        let help = ReportHelp::new("use correct delimiter").with_patch(self.closing.1, self.opening.0.closing());
        assert(help@.patches =~= seq![patch_view(self.closing.1, closing_text(self.opening.0))]);
        error_report(
            self.span,
            String::from_str("mismatched delimiter"),
            two_annotations(ReportAnnotation::primary(self.closing.1), ReportAnnotation::context(self.opening.1, "opened here")),
            one_help(help),
        )
    }
}

/// A token where a closing delimiter was expected.
#[derive(Clone, Debug)]
pub struct ExpectedClosingDelimError<'a> {
    pub span: Span,
    pub delim: Delim,
    pub token: Token<'a>,
}

pub open spec fn expected_closing_delim_view(err: ExpectedClosingDelimError) -> ReportView {
    error_view(
        err.span,
        "expected closing delim '"@ + closing_text(err.delim) + "' but got "@ + token_display(err.token, true),
        seq![primary_view(span_before(err.span))],
        Seq::empty(),
    )
}

impl<'a> ExpectedClosingDelimError<'a> {
    pub fn to_report(self) -> (r: Report)
        ensures
            r@ == expected_closing_delim_view(self),
    {
        let mut title = concat("expected closing delim '", self.delim.closing());
        push_str(&mut title, "' but got ");
        let shown = self.token.display(true);
        push_str(&mut title, shown.as_str());
        error_report(self.span, title, one_annotation(ReportAnnotation::primary(self.span.before())), no_helps())
    }
}

/// A token that cannot stand where an expression (or a part of one) was expected.
#[derive(Clone, Debug)]
pub struct UnexpectedTokenExprError<'a> {
    pub span: Span,
    pub token: Token<'a>,
    pub expected: Option<Token<'a>>,
}

pub open spec fn unexpected_token_expr_view(err: UnexpectedTokenExprError) -> ReportView {
    match err.expected {
        Some(expected) => error_view(
            err.span,
            "unexpected token in expr "@ + token_display(err.token, true) + " expected "@ + token_display(expected, true),
            seq![primary_view(err.span)],
            seq![help_view(
                "consider adding here"@,
                seq![patch_view(
                    span_before(err.span),
                    " "@ + token_display(expected, true) + " "@,
                )],
            )],
        ),
        None => error_view(
            err.span,
            "unexpected token in expr "@ + token_display(err.token, true),
            seq![primary_view(err.span)],
            Seq::empty(),
        ),
    }
}

impl<'a> UnexpectedTokenExprError<'a> {
    pub fn to_report(self) -> (r: Report)
        ensures
            r@ == unexpected_token_expr_view(self),
    {
        let mut title = String::from_str("unexpected token in expr ");
        let shown = self.token.display(true);
        push_str(&mut title, shown.as_str());
        match self.expected {
            Some(expected) => {
                push_str(&mut title, " expected ");
                let exp = expected.display(true);
                push_str(&mut title, exp.as_str());
                let mut replacement = String::from_str(" ");
                push_str(&mut replacement, exp.as_str());
                push_str(&mut replacement, " ");
                let mut patches = Vec::new();
                patches.push(ReportPatch { span: self.span.before(), replacement });
                let help = ReportHelp { title: String::from_str("consider adding here"), patches };
                assert(help@.patches =~= seq![patch_view(span_before(self.span), " "@ + token_display(expected, true) + " "@)]);
                error_report(self.span, title, one_annotation(ReportAnnotation::primary(self.span)), one_help(help))
            }
            None => error_report(self.span, title, one_annotation(ReportAnnotation::primary(self.span)), no_helps()),
        }
    }
}

/// A token that cannot stand in an attribute path.
#[derive(Clone, Debug)]
pub struct UnexpectedTokenAttrPathError<'a> {
    pub span: Span,
    pub token: Token<'a>,
}

pub open spec fn unexpected_token_attr_path_view(err: UnexpectedTokenAttrPathError) -> ReportView {
    error_view(
        err.span,
        "expected token in attr path but got "@ + token_display(err.token, true),
        seq![primary_view(err.span)],
        Seq::empty(),
    )
}

impl<'a> UnexpectedTokenAttrPathError<'a> {
    pub fn to_report(self) -> (r: Report)
        ensures
            r@ == unexpected_token_attr_path_view(self),
    {
        let shown = self.token.display(true);
        let title = concat("expected token in attr path but got ", shown.as_str());
        error_report(self.span, title, one_annotation(ReportAnnotation::primary(self.span)), no_helps())
    }
}

/// A function application written as a list element.
#[derive(Clone, Debug)]
pub struct FuncAppInListError {
    pub span: Span,
    pub func: Span,
}

pub open spec fn func_app_in_list_view(err: FuncAppInListError) -> ReportView {
    error_view(
        err.span,
        "function application in list"@,
        seq![primary_view(err.span)],
        seq![
            help_view("consider wrapping in parenthesis if intended"@, seq![
                patch_view(span_before(err.span), "("@),
                patch_view(span_after(err.span), ")"@),
            ]),
            help_view("or add comma if not"@, seq![
                patch_view(span_after(err.func), ","@),
            ]),
        ],
    )
}

impl FuncAppInListError {
    pub fn to_report(self) -> (r: Report)
        ensures
            r@ == func_app_in_list_view(self),
    {
        let wrap = ReportHelp::new("consider wrapping in parenthesis if intended")
            .with_patch(self.span.before(), "(")
            .with_patch(self.span.after(), ")");
        let comma = ReportHelp::new("or add comma if not").with_patch(self.func.after(), ",");
        assert(wrap@.patches =~= seq![patch_view(span_before(self.span), "("@), patch_view(span_after(self.span), ")"@)]);
        assert(comma@.patches =~= seq![patch_view(span_after(self.func), ","@)]);
        error_report(
            self.span,
            String::from_str("function application in list"),
            one_annotation(ReportAnnotation::primary(self.span)),
            two_helps(wrap, comma),
        )
    }
}

/// A function definition written as a list element.
#[derive(Clone, Debug)]
pub struct FuncDefInListError {
    pub span: Span,
}

pub open spec fn func_def_in_list_view(err: FuncDefInListError) -> ReportView {
    error_view(
        err.span,
        "function declaration in list"@,
        seq![primary_view(err.span)],
        seq![help_view("consider wrapping in parenthesis"@, seq![
            patch_view(span_before(err.span), "("@),
            patch_view(span_after(err.span), ")"@),
        ])],
    )
}

impl FuncDefInListError {
    pub fn to_report(self) -> (r: Report)
        ensures
            r@ == func_def_in_list_view(self),
    {
        let wrap = ReportHelp::new("consider wrapping in parenthesis")
            .with_patch(self.span.before(), "(")
            .with_patch(self.span.after(), ")");
        assert(wrap@.patches =~= seq![patch_view(span_before(self.span), "("@), patch_view(span_after(self.span), ")"@)]);
        error_report(
            self.span,
            String::from_str("function declaration in list"),
            one_annotation(ReportAnnotation::primary(self.span)),
            one_help(wrap),
        )
    }
}

/// Input left over after a complete expression.
#[derive(Clone, Debug)]
pub struct ExpectedEofError<'a> {
    pub span: Span,
    pub token: Token<'a>,
}

pub open spec fn expected_eof_view(err: ExpectedEofError) -> ReportView {
    error_view(
        err.span,
        "expected eof but got token "@ + token_display(err.token, true),
        seq![primary_view(err.span)],
        Seq::empty(),
    )
}

impl<'a> ExpectedEofError<'a> {
    pub fn to_report(self) -> (r: Report)
        ensures
            r@ == expected_eof_view(self),
    {
        let shown = self.token.display(true);
        let title = concat("expected eof but got token ", shown.as_str());
        error_report(self.span, title, one_annotation(ReportAnnotation::primary(self.span)), no_helps())
    }
}

/// Why a float literal was refused (as `ParseFloatError`).
#[derive(Clone, Copy, Debug, PartialEq, Eq, Structural)]
pub enum FloatErrorKind {
    Empty,
    Invalid,
}

/// Why an integer literal was refused (as `ParseIntError`).
#[derive(Clone, Copy, Debug, PartialEq, Eq, Structural)]
pub enum IntErrorKind {
    Empty,
    InvalidDigit,
    PosOverflow,
}

pub open spec fn float_error_text(k: FloatErrorKind) -> Seq<char> {
    match k {
        FloatErrorKind::Empty => "cannot parse float from empty string"@,
        FloatErrorKind::Invalid => "invalid float literal"@,
    }
}

pub open spec fn int_error_text(k: IntErrorKind) -> Seq<char> {
    match k {
        IntErrorKind::Empty => "cannot parse integer from empty string"@,
        IntErrorKind::InvalidDigit => "invalid digit found in string"@,
        IntErrorKind::PosOverflow => "number too large to fit in target type"@,
    }
}

impl FloatErrorKind {
    /// The message of the error (as `ParseFloatError`'s `Display`).
    pub fn message(&self) -> (s: String)
        ensures
            s@ == float_error_text(*self),
    {
        match self {
            FloatErrorKind::Empty => String::from_str("cannot parse float from empty string"),
            FloatErrorKind::Invalid => String::from_str("invalid float literal"),
        }
    }
}

impl IntErrorKind {
    /// The message of the error (as `ParseIntError`'s `Display`).
    pub fn message(&self) -> (s: String)
        ensures
            s@ == int_error_text(*self),
    {
        match self {
            IntErrorKind::Empty => String::from_str("cannot parse integer from empty string"),
            IntErrorKind::InvalidDigit => String::from_str("invalid digit found in string"),
            IntErrorKind::PosOverflow => String::from_str("number too large to fit in target type"),
        }
    }
}

/// A float literal that could not be read.
#[derive(Clone, Debug)]
pub struct FloatError {
    pub span: Span,
    pub err: FloatErrorKind,
}

pub open spec fn float_error_view(err: FloatError) -> ReportView {
    error_view(err.span, float_error_text(err.err), seq![primary_view(err.span)], Seq::empty())
}

impl FloatError {
    pub fn to_report(self) -> (r: Report)
        ensures
            r@ == float_error_view(self),
    {
        error_report(self.span, self.err.message(), one_annotation(ReportAnnotation::primary(self.span)), no_helps())
    }
}

/// An integer literal that could not be read.
#[derive(Clone, Debug)]
pub struct IntError {
    pub span: Span,
    pub err: IntErrorKind,
}

pub open spec fn int_error_view(err: IntError) -> ReportView {
    error_view(err.span, int_error_text(err.err), seq![primary_view(err.span)], Seq::empty())
}

impl IntError {
    pub fn to_report(self) -> (r: Report)
        ensures
            r@ == int_error_view(self),
    {
        error_report(self.span, self.err.message(), one_annotation(ReportAnnotation::primary(self.span)), no_helps())
    }
}

/// A token where a destructuring pattern was expected.
#[derive(Clone, Debug)]
pub struct UnexpectedTokenPattern<'a> {
    pub span: Span,
    pub got: Token<'a>,
}

pub open spec fn unexpected_token_pattern_view(err: UnexpectedTokenPattern) -> ReportView {
    error_view(
        err.span,
        "expected '{' or '[' in pattern got "@ + token_display(err.got, true),
        seq![primary_view(err.span)],
        Seq::empty(),
    )
}

impl<'a> UnexpectedTokenPattern<'a> {
    pub fn to_report(self) -> (r: Report)
        ensures
            r@ == unexpected_token_pattern_view(self),
    {
        let shown = self.got.display(true);
        let title = concat("expected '{' or '[' in pattern got ", shown.as_str());
        error_report(self.span, title, one_annotation(ReportAnnotation::primary(self.span)), no_helps())
    }
}

/// A token where an identifier was expected.
#[derive(Clone, Debug)]
pub struct ExpectedIdent<'a> {
    pub span: Span,
    pub got: Token<'a>,
}

pub open spec fn expected_ident_view(err: ExpectedIdent) -> ReportView {
    error_view(
        err.span,
        "expected ident got "@ + token_display(err.got, true),
        seq![primary_view(err.span)],
        Seq::empty(),
    )
}

impl<'a> ExpectedIdent<'a> {
    pub fn to_report(self) -> (r: Report)
        ensures
            r@ == expected_ident_view(self),
    {
        let shown = self.got.display(true);
        let title = concat("expected ident got ", shown.as_str());
        error_report(self.span, title, one_annotation(ReportAnnotation::primary(self.span)), no_helps())
    }
}

/// A second `..` in one pattern.
#[derive(Clone, Debug)]
pub struct DuplicatePatternRest {
    pub span: Span,
    pub first: Span,
}

pub open spec fn duplicate_pattern_rest_view(err: DuplicatePatternRest) -> ReportView {
    error_view(
        err.span,
        "duplicate .. in pattern"@,
        seq![primary_view(err.span), context_view(err.first, "first used here"@)],
        Seq::empty(),
    )
}

impl DuplicatePatternRest {
    pub fn to_report(self) -> (r: Report)
        ensures
            r@ == duplicate_pattern_rest_view(self),
    {
        error_report(
            self.span,
            String::from_str("duplicate .. in pattern"),
            two_annotations(ReportAnnotation::primary(self.span), ReportAnnotation::context(self.first, "first used here")),
            no_helps(),
        )
    }
}

/// A `..` in an attribute set pattern that is not its last entry.
#[derive(Clone, Debug)]
pub struct NonTrailingPatternRestWarning {
    pub span: Span,
}

pub open spec fn non_trailing_pattern_rest_view(err: NonTrailingPatternRestWarning) -> ReportView {
    error_view(err.span, ".. in pattern should be trailing"@, seq![primary_view(err.span)], Seq::empty())
}

impl NonTrailingPatternRestWarning {
    pub fn to_report(self) -> (r: Report)
        ensures
            r@ == non_trailing_pattern_rest_view(self),
    {
        error_report(
            self.span,
            String::from_str(".. in pattern should be trailing"),
            one_annotation(ReportAnnotation::primary(self.span)),
            no_helps(),
        )
    }
}

/// A `..` in the middle of a list pattern.
#[derive(Clone, Debug)]
pub struct NonTrailingListTrail {
    pub span: Span,
}

pub open spec fn non_trailing_list_trail_view(err: NonTrailingListTrail) -> ReportView {
    error_view(err.span, ".. cannot appear in middle of list"@, seq![primary_view(err.span)], Seq::empty())
}

impl NonTrailingListTrail {
    pub fn to_report(self) -> (r: Report)
        ensures
            r@ == non_trailing_list_trail_view(self),
    {
        error_report(
            self.span,
            String::from_str(".. cannot appear in middle of list"),
            one_annotation(ReportAnnotation::primary(self.span)),
            no_helps(),
        )
    }
}

} // verus!
