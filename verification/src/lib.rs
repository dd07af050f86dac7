//! Rex: types, runtime values, the lossless syntax tree, lexer, parser and
//! formatter of the Rex language.

use vstd::prelude::*;

pub mod text;
pub mod types;
pub mod value;
pub mod heap;
pub mod rexc;
pub mod syntax;
pub mod lexer;
pub mod parser;
pub mod grammar;
pub mod format;
pub mod layout;
pub mod ast;
pub mod editor;
pub mod position;
pub mod color;
pub mod suggest;
pub mod interpret;
pub mod literal;
pub mod markdown;
pub mod env;
pub mod hover;
pub mod completion;
pub mod cursor;
pub mod definition;
pub mod rexd;
pub mod locals;
pub mod semantic;
pub mod rename;
pub mod reader;
pub mod report;
pub mod json;

verus! {

/// Formats Rex source code (see `format::format`): comments, type
/// annotations, extern declarations and dynamic navigation are preserved.
pub fn format(source: &str) -> (r: String)
    requires
        source@.len() + 4 <= usize::MAX,
    ensures
        exists|root: syntax::Node|
            #![trigger format::ink_node(root)]
            parser::is_parse_of(root, source@) && format::node_text(root) == source@ && r@
                == layout::format_v(root) && crate::text::ink(r@) == format::ink_node(root),
        r@.len() > 0,
        r@.last() == '\n',
        r@.len() > 1 ==> r@[r@.len() - 2] != '\n',
{
    format::format(source)
}

} // verus!
