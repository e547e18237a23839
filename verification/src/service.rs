//! The backend-agnostic task lifecycle service: it owns exactly one store
//! backend, selected when it is built, and forwards each operation to it
//! unchanged. All state and all storage discipline live in the backend.

use vstd::prelude::*;

use crate::model::Task;
use crate::repository::{opt_view, tasks_view, Repository};

verus! {

/// Task lifecycle operations over one store backend.
pub struct Service<R: Repository> {
    pub repository: Box<R>,
}

impl<R: Repository> Service<R> {
    /// The backend's well-formedness, carried up to the service.
    pub open spec fn inv(&self) -> bool {
        self.repository.inv()
    }

    /// Whether the backend can still allocate a fresh id.
    pub open spec fn can_add(&self) -> bool {
        self.repository.can_add()
    }

    /// A service over the given backend; ownership of the backend moves in
    /// and is never given up.
    pub fn new(repository: Box<R>) -> (r: Self)
        ensures
            r.repository == repository,
    {
        Service { repository }
    }

    /// All tasks the backend stores.
    pub fn list_tasks(&self) -> (r: Vec<Task>)
        requires
            self.inv(),
        ensures
            self.repository.list_ens(tasks_view(r@)),
    {
        self.repository.get_tasks()
    }

    /// Stores a new task with the given name under a fresh id.
    pub fn create_task(&mut self, name: String) -> (t: Task)
        requires
            old(self).inv(),
            old(self).can_add(),
        ensures
            final(self).inv(),
            t@.name == name@,
            R::add_ens(*old(self).repository, *final(self).repository, name@, t@),
    {
        self.repository.add_task(name)
    }

    /// The task stored under the given id, or nothing when it is absent.
    pub fn get_task(&self, id: u32) -> (r: Option<Task>)
        requires
            self.inv(),
        ensures
            r matches Some(t) ==> t@.id == id,
            self.repository.get_ens(id, opt_view(r)),
    {
        self.repository.get_task(id)
    }

    /// Removes the task stored under the given id and returns it, or returns
    /// nothing when it is absent.
    pub fn delete_task(&mut self, id: u32) -> (r: Option<Task>)
        requires
            old(self).inv(),
        ensures
            final(self).inv(),
            r matches Some(t) ==> t@.id == id,
            R::delete_ens(*old(self).repository, *final(self).repository, id, opt_view(r)),
    {
        self.repository.delete_task(id)
    }
}

} // verus!
