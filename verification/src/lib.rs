//! Lazy, chainable pipelines over pull-based sequences, and the pieces of
//! the command-line tools that run pipeline one-liners.
//!
//! A pipeline is a [`Flu`] around a [`Stage`]. Every operator consumes the
//! pipeline and wraps its stage in a new one; nothing is pulled until a
//! terminal operator runs. Contracts are stated over the sequence of models
//! (deep views) of the items that a pipeline has yet to yield.
//!
//! Operators that call a function of the caller come in two forms. The
//! plain form takes a closure, and its contract speaks of the closure
//! through its `requires` and `ensures`. The form whose name ends in `_by`
//! (`group_by_key` for grouping) takes a value of a type that implements
//! [`Predicate`], [`Mapping`] or [`Keying`] and says there, in spec
//! functions, what it computes; verified callers who want to know the
//! result exactly use this form.

pub mod codegen;
pub mod compile;
pub mod error;
pub mod fluent;
pub mod function;
pub mod grouping;
pub mod joins;
pub mod order;
pub mod output;
pub mod paint;
pub mod selection;
pub mod seqs;
pub mod source;
pub mod stage;
pub mod terminal;
pub mod text;
pub mod transformation;

pub use codegen::{CodeGenerator, InputFormat, InputSource};
pub use compile::{
    BuildEvent, BuildState, BuildStep, CompileResult, Compiler, TargetDir, Tool,
};
pub use error::{FluError, LobError, Suggestion};
pub use fluent::{Flu, FluExt};
pub use function::{Closure, Keying, Mapping, Predicate};
pub use grouping::{ChunkIterator, GroupByCollectIterator, WindowIterator};
pub use joins::{InnerJoinIterator, LeftJoinIterator};
pub use output::OutputFormat;
pub use source::{flu, input, range, IntoStage, VecSource};
pub use stage::Stage;
