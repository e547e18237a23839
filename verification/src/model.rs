//! The task entity: an immutable value of a numeric id and a name, together
//! with the builder that assembles one field by field.

use vstd::prelude::*;

verus! {

/// The mathematical value of a [`Task`]: its id and the characters of its name.
pub ghost struct TaskView {
    pub id: u32,
    pub name: Seq<char>,
}

/// A task: an id assigned by the store at creation, and a name.
pub struct Task {
    pub id: u32,
    pub name: String,
}

impl View for Task {
    type V = TaskView;

    open spec fn view(&self) -> TaskView {
        TaskView { id: self.id, name: self.name@ }
    }
}

impl Task {
    /// The id under which the store holds the task.
    pub fn id(&self) -> (r: u32)
        ensures
            r == self@.id,
    {
        self.id
    }

    /// The task's name.
    pub fn name(&self) -> (r: &str)
        ensures
            r@ == self@.name,
    {
        self.name.as_str()
    }
}

impl Clone for Task {
    fn clone(&self) -> (r: Self)
        ensures
            r == *self,
    {
        Task { id: self.id, name: self.name.clone() }
    }
}

/// What a caller asking for a new task hands over: the name alone; the store
/// assigns the id.
pub struct TaskCreateInput {
    pub name: String,
}

/// Assembles a [`Task`] out of an id and a name, each set separately.
pub struct TaskBuilder {
    pub id: u32,
    pub name: String,
}

impl TaskBuilder {
    /// A builder holding id `0` and an empty name.
    pub fn new() -> (r: Self)
        ensures
            r.id == 0,
            r.name@ == Seq::<char>::empty(),
    {
        TaskBuilder { id: 0, name: String::new() }
    }

    /// Sets the id, leaving the name as it was.
    pub fn id(&mut self, id: u32) -> (r: &mut Self)
        ensures
            r.id == id,
            r.name == old(self).name,
            *final(self) == *final(r),
    {
        self.id = id;
        self
    }

    /// Sets the name, leaving the id as it was.
    pub fn name(&mut self, name: &str) -> (r: &mut Self)
        ensures
            r.id == old(self).id,
            r.name@ == name@,
            *final(self) == *final(r),
    {
        self.name = name.to_owned();
        self
    }

    /// The task with the id and name set so far.
    pub fn build(&self) -> (t: Task)
        ensures
            t@.id == self.id,
            t@.name == self.name@,
    {
        Task { id: self.id, name: self.name.clone() }
    }
}

} // verus!
