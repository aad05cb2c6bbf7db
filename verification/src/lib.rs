//! A small todo-list library: an ordered, index-addressed collection of
//! entries, a canonical JSON document codec for whole-file persistence,
//! and the decision logic behind the HTTP frontend's handlers.

pub mod codec;
pub mod model;
pub mod server;

pub use model::TodoEntry;
pub use model::TodoList;
