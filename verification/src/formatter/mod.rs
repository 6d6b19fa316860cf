pub(crate) mod layout;
mod options;
mod render;

pub use render::format_ast;

pub use options::{AttrSeparatorStyle, FormatOptions, IndentStyle, SeparatorStyle};

