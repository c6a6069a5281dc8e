use vstd::prelude::*;

verus! {

/// One to-do entry.
///
/// `id` is a stable, unique-by-construction handle: operations on the list
/// re-locate a task by `id` after the displayed order has changed, never by
/// position. Timestamps count milliseconds of UTC time; they are plain
/// integers here so that ordering and the `created_date <= updated_date`
/// invariant are matters of arithmetic.
pub struct TodoItem {
    pub id: u128,
    pub name: String,
    pub completed: bool,
    pub created_date: i64,
    pub updated_date: i64,
}

impl TodoItem {
    /// A task is never marked as updated before it was created.
    pub open spec fn inv(self) -> bool {
        self.created_date <= self.updated_date
    }

    /// A fresh, uncompleted task named `name`, created and updated "now".
    pub fn new(name: &str) -> (item: TodoItem)
        ensures
            item.name@ == name@,
            !item.completed,
            item.created_date == item.updated_date,
            item.inv(),
    {
        let now: i64 = now_millis();
        TodoItem {
            id: fresh_id(),
            name: name.to_owned(),
            completed: false,
            created_date: now,
            updated_date: now,
        }
    }

    /// Sets the completion flag and refreshes `updated_date`. The clock is
    /// not trusted to be monotonic, so the new `updated_date` is clamped to
    /// never move backwards.
    pub fn set_completion(&mut self, is_complete: bool)
        requires
            old(self).inv(),
        ensures
            final(self).completed == is_complete,
            final(self).id == old(self).id,
            final(self).name == old(self).name,
            final(self).created_date == old(self).created_date,
            final(self).updated_date >= old(self).updated_date,
            final(self).inv(),
    {
        self.completed = is_complete;
        self.touch();
    }

    /// Renames the task and refreshes `updated_date`; `id`, `completed` and
    /// `created_date` are untouched.
    pub fn set_name(&mut self, name: &str)
        requires
            old(self).inv(),
        ensures
            final(self).name@ == name@,
            final(self).id == old(self).id,
            final(self).completed == old(self).completed,
            final(self).created_date == old(self).created_date,
            final(self).updated_date >= old(self).updated_date,
            final(self).inv(),
    {
        self.name = name.to_owned();
        self.touch();
    }

    fn touch(&mut self)
        requires
            old(self).inv(),
        ensures
            final(self).id == old(self).id,
            final(self).name == old(self).name,
            final(self).completed == old(self).completed,
            final(self).created_date == old(self).created_date,
            final(self).updated_date >= old(self).updated_date,
            final(self).inv(),
    {
        let now: i64 = now_millis();
        if now > self.updated_date {
            self.updated_date = now;
        }
    }
}

impl Clone for TodoItem {
    /// An exact copy; consumers of the list receive clones, never aliases.
    fn clone(&self) -> (other: Self)
        ensures
            other == *self,
    {
        TodoItem {
            id: self.id,
            name: self.name.clone(),
            completed: self.completed,
            created_date: self.created_date,
            updated_date: self.updated_date,
        }
    }
}

/// Relies on `uuid::Uuid::new_v4` (and `as_u128` to unpack it): a freshly
/// drawn random 128-bit identifier. Nothing is promised of the value.
#[verifier::external_body]
fn fresh_id() -> u128 {
    uuid::Uuid::new_v4().as_u128()
}

/// Relies on `chrono::Utc::now` (unpacked with `timestamp_millis`): the
/// current UTC time in milliseconds. Nothing is promised of the value.
#[verifier::external_body]
fn now_millis() -> i64 {
    chrono::Utc::now().timestamp_millis()
}

} // verus!
