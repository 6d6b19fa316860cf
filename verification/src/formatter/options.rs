use vstd::prelude::*;

verus! {

#[derive(Clone, Copy, Debug, PartialEq, Eq, Structural)]
pub enum IndentStyle {
    Spaces,
    Tabs,
}

#[derive(Clone, Copy, Debug, PartialEq, Eq, Structural)]
pub enum SeparatorStyle {
    Comma,
    Semicolon,
}

pub open spec fn separator_char(s: SeparatorStyle) -> char {
    match s {
        SeparatorStyle::Comma => ',',
        SeparatorStyle::Semicolon => ';',
    }
}

impl SeparatorStyle {
    pub(crate) fn token(self) -> (c: char)
        ensures
            c == separator_char(self),
    {
        match self {
            SeparatorStyle::Comma => ',',
            SeparatorStyle::Semicolon => ';',
        }
    }
}

/// How the attributes of a set are separated: `Smart` writes a set on one
/// line when it fits, and otherwise separates with `,` when no attribute has
/// a value and with `;` when some has.
#[derive(Clone, Copy, Debug, PartialEq, Eq, Structural)]
pub enum AttrSeparatorStyle {
    Smart,
    Comma,
    Semicolon,
}

#[derive(Clone, Copy, Debug, PartialEq, Eq, Structural)]
pub struct FormatOptions {
    pub indent_style: IndentStyle,
    pub indent_width: usize,
    pub attr_separator: AttrSeparatorStyle,
    pub let_separator: SeparatorStyle,
    pub pattern_separator: SeparatorStyle,
    pub trailing_separator: bool,
    pub final_newline: bool,
    pub max_inline_width: usize,
}

impl Default for FormatOptions {
    fn default() -> (o: Self)
        ensures
            o.indent_style == IndentStyle::Spaces,
            o.indent_width == 2,
            o.attr_separator == AttrSeparatorStyle::Smart,
            o.let_separator == SeparatorStyle::Semicolon,
            o.pattern_separator == SeparatorStyle::Comma,
            o.trailing_separator,
            o.final_newline,
            o.max_inline_width == 80,
    {
        FormatOptions {
            indent_style: IndentStyle::Spaces,
            indent_width: 2,
            attr_separator: AttrSeparatorStyle::Smart,
            let_separator: SeparatorStyle::Semicolon,
            pattern_separator: SeparatorStyle::Comma,
            trailing_separator: true,
            final_newline: true,
            max_inline_width: 80,
        }
    }
}

} // verus!
