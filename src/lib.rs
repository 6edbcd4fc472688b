pub mod cursor;
pub mod object;
pub mod query;
pub mod selection;
pub mod syntax;
pub mod text;
pub mod tree;

pub use cursor::{NodeRef, TreeCursor, TreeRecursiveWalker};
pub use object::{
    expand_selection, select_all_children, select_all_siblings, select_next_sibling,
    select_prev_sibling, shrink_selection,
};
pub use selection::{Direction, Range, Selection};
pub use syntax::{ByteRange, InjectionRange, LanguageLayer, Syntax};
pub use tree::{SyntaxNode, SyntaxTree};
