//! Groups the files of a code-generation request into one output module per
//! schema package.

pub mod args;
pub mod entries;
pub mod file;
pub mod fold;
pub mod grouping;
pub mod module;
pub mod params;
pub mod requests;
pub mod text;

pub use args::Args;
pub use file::FileDescription;
pub use module::Module;
pub use requests::{ModuleRequest, ModuleRequestSet};
pub use text::Rank;
