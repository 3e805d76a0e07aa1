//! Persistence core of a local task/tag tracker.
//!
//! The library holds the verified relational model: tasks, tags, the
//! many-to-many links between them, the timestamp wire codec, and the
//! read paths that aggregate a task together with its tags.  The
//! surrounding application supplies the embedded store file and the
//! user interface; it hands this library plain values and gets plain
//! values back.

pub mod clock;
pub mod codec;
pub mod order;
pub mod store;
pub mod time;
pub mod types;

pub use store::Store;
pub use time::Timestamp;
pub use types::{NewTag, Tag, Task, TaskError};
