//! A scaffolding engine: a declarative tree of generator items is expanded,
//! depth first, into a deduplicated set of output files, an ordered queue of
//! shell commands, and a log of interactive questions answered along the way.
//! The expansion engine, the duplicate-path invariant, the mount (namespacing)
//! wrapper and the question combinator are verified; rendering prompts to a
//! terminal, writing files and spawning processes are left to the embedding
//! program, behind the [`Environment`] trait and the artifact's plain data.

pub mod environment;
pub mod error;
pub mod file;
pub mod geenie;
pub mod item;
pub mod materialize;
pub mod path;
pub mod process;
pub mod question;
pub mod questions;
pub mod result;
pub mod sem;

pub use environment::Environment;
pub use error::GeenieError;
pub use file::File;
pub use file::FileList;
pub use geenie::Geenie;
pub use item::Item;
pub use process::CommandList;
pub use process::Process;
pub use process::process;
pub use question::Question;
pub use question::QuestionKind;
pub use result::GeenieResult;
pub use result::ResultBuilder;
