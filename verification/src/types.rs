//! The plain data types the store hands out, their mathematical views,
//! and the error type of every fallible operation.

use vstd::prelude::*;
use vstd::string::StringExecFns;
use crate::time::Timestamp;

verus! {

/// A tag: a unique name with a display color.
#[derive(Debug)]
pub struct Tag {
    pub id: i64,
    pub name: String,
    pub color: String,
}

/// The mathematical value of a [`Tag`].
#[verifier::ext_equal]
pub ghost struct TagModel {
    pub id: int,
    pub name: Seq<char>,
    pub color: Seq<char>,
}

impl View for Tag {
    type V = TagModel;

    open spec fn view(&self) -> TagModel {
        TagModel { id: self.id as int, name: self.name@, color: self.color@ }
    }
}

impl Clone for Tag {
    fn clone(&self) -> (r: Self)
        ensures
            r@ == self@,
    {
        Tag { id: self.id, name: self.name.clone(), color: self.color.clone() }
    }
}

/// A tag as a caller supplies it: a name and a color, with no id yet.
#[derive(Debug)]
pub struct NewTag {
    pub name: String,
    pub color: String,
}

/// The mathematical value of a [`NewTag`].
#[verifier::ext_equal]
pub ghost struct NewTagModel {
    pub name: Seq<char>,
    pub color: Seq<char>,
}

impl View for NewTag {
    type V = NewTagModel;

    open spec fn view(&self) -> NewTagModel {
        NewTagModel { name: self.name@, color: self.color@ }
    }
}

impl Clone for NewTag {
    fn clone(&self) -> (r: Self)
        ensures
            r@ == self@,
    {
        NewTag { name: self.name.clone(), color: self.color.clone() }
    }
}

/// A task as the read paths return it: the stored row together with its
/// aggregated tag list.  `tags` is `None`, not an empty list, when the
/// task has no linked tags.
#[derive(Debug)]
pub struct Task {
    pub id: i64,
    pub name: String,
    pub due_date: Option<Timestamp>,
    pub created_at: Timestamp,
    pub completed: bool,
    pub completed_at: Option<Timestamp>,
    pub tags: Option<Vec<Tag>>,
}

/// The mathematical value of a [`Task`].
#[verifier::ext_equal]
pub ghost struct TaskModel {
    pub id: int,
    pub name: Seq<char>,
    pub due_date: Option<Timestamp>,
    pub created_at: Timestamp,
    pub completed: bool,
    pub completed_at: Option<Timestamp>,
    pub tags: Option<Seq<TagModel>>,
}

impl View for Task {
    type V = TaskModel;

    open spec fn view(&self) -> TaskModel {
        TaskModel {
            id: self.id as int,
            name: self.name@,
            due_date: self.due_date,
            created_at: self.created_at,
            completed: self.completed,
            completed_at: self.completed_at,
            tags: match self.tags {
                Some(v) => Some(v@.map_values(|t: Tag| t@)),
                None => None,
            },
        }
    }
}

/// What can go wrong in the store.  Every variant is surfaced to the
/// caller as one flat message via [`TaskError::message`].
#[derive(Debug)]
pub enum TaskError {
    /// The operation targeted an id or a name that does not exist.
    NotFound,
    /// A uniqueness or referential-integrity rule was violated, or an
    /// input broke a data-model rule (an empty task name, an exhausted
    /// id space).
    ConstraintViolation,
    /// A timestamp field failed to decode; carries the field's name and
    /// the raw text.
    MalformedTimestamp { field: String, value: String },
    /// The platform clock or time zone yielded no usable instant.
    ClockUnavailable,
}

impl TaskError {
    /// The flattened message shown to the caller.
    pub fn message(&self) -> (r: String)
        ensures
            match self {
                TaskError::NotFound => r@ == "not found"@,
                TaskError::ConstraintViolation => r@ == "constraint violation"@,
                TaskError::MalformedTimestamp { field, value } => r@ == "malformed timestamp in "@
                    + field@ + ": "@ + value@,
                TaskError::ClockUnavailable => r@ == "clock unavailable"@,
            },
    {
        match self {
            TaskError::NotFound => "not found".to_owned(),
            TaskError::ConstraintViolation => "constraint violation".to_owned(),
            TaskError::MalformedTimestamp { field, value } => {
                let mut s = "malformed timestamp in ".to_owned();
                s.append(field.as_str());
                s.append(": ");
                s.append(value.as_str());
                s
            },
            TaskError::ClockUnavailable => "clock unavailable".to_owned(),
        }
    }
}

} // verus!
