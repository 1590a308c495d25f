//! A small Lisp reader and evaluator: a tokenizer, a reader that builds
//! lists in a heap of cons cells, expansion of special forms, evaluation,
//! and writing values back as text.
pub mod context;
pub mod display;
pub mod prims;
pub mod syntax;
pub mod text;
pub mod tokenizer;
pub mod value;

pub use context::{Context, Primitive};
pub use prims::Prim;
pub use tokenizer::Tokenizer;
pub use value::{Builtin, BuiltinType, Heap, Lambda, Pair, Value, ValueListIter, ValueTreeIter};
