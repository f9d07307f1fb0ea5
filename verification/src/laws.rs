//! What the operations are for. Each law here is about every result that an operation can
//! give: it says of what goes in and what comes out how they belong together, or how the
//! results of two calls do.
//!
//! - [`sync`]: what is copied, where to, and that it stays inside the project.
//! - [`loading`]: that a configuration says what its file says, and which ones are taken.
//! - [`running`]: the commands that a task runs, and what it needs for them.
//! - [`filling`]: what the templates of a task stand for.
//! - [`serving`]: which requests of the remote machine are taken, and what is answered.
//! - [`setup`]: the helper, the tunnel and the report on both machines.
//! - [`wording`]: texts, numbers and names.
pub mod filling;
pub mod loading;
pub mod running;
pub mod serving;
pub mod setup;
pub mod sync;
pub mod wording;
