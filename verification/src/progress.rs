//! The progress model shared by the long-running stream operations: a
//! snapshot timestamp, counters, and the per-object error log accumulated
//! during one pass.

use crate::model::ObjectError;
use crate::table::{has_key, insert_new, keys_unique, remove_key, val_of};
use vstd::prelude::*;

verus! {

/// Copies a list of messages.
pub fn clone_strings(v: &Vec<String>) -> (r: Vec<String>)
    ensures
        r@ == v@,
{
    let mut r: Vec<String> = Vec::new();
    let mut i: usize = 0;
    while i < v.len()
        invariant
            i <= v@.len(),
            r@ == v@.take(i as int),
        decreases v@.len() - i,
    {
        r.push(v[i].clone());
        proof {
            assert(r@ =~= v@.take(i as int + 1));
        }
        i = i + 1;
    }
    proof {
        assert(v@.take(v@.len() as int) =~= v@);
    }
    r
}

/// A live long-running operation: when its snapshot was taken, how many
/// objects it expects, how many it has processed, and the error messages
/// recorded against each object during this run.
#[derive(Debug)]
pub struct Progress {
    pub started: i64,
    pub total: u64,
    pub completed: u64,
    pub errors: Vec<(u128, Vec<String>)>,
}

impl Progress {
    /// Whether the error log is consistent: distinct ids, no empty record.
    pub open spec fn wf(self) -> bool {
        keys_unique(self.errors@) && (forall|i: int|
            0 <= i < self.errors@.len() ==> (#[trigger] self.errors@[i]).1@.len() > 0)
    }

    /// Whether the log holds messages for the given object.
    pub open spec fn has_errors(self, object_id: u128) -> bool {
        has_key(self.errors@, object_id)
    }

    /// The messages recorded against the given object.
    pub open spec fn error_messages(self, object_id: u128) -> Seq<String>
        recommends
            self.has_errors(object_id),
    {
        val_of(self.errors@, object_id)@
    }

    /// The messages recorded against the given object, or the empty list
    /// if it has none.
    pub open spec fn messages_or_empty(self, object_id: u128) -> Seq<String> {
        if self.has_errors(object_id) {
            self.error_messages(object_id)
        } else {
            Seq::<String>::empty()
        }
    }

    /// A fresh guard for an operation that starts now: nothing processed,
    /// no errors recorded.
    pub fn new(started: i64, total: u64) -> (r: Progress)
        ensures
            r.wf(),
            r.started == started,
            r.total == total,
            r.completed == 0,
            r.errors@ == Seq::<(u128, Vec<String>)>::empty(),
    {
        Progress { started, total, completed: 0, errors: Vec::new() }
    }

    /// The snapshot timestamp of this run.
    pub fn started(&self) -> (r: i64)
        ensures
            r == self.started,
    {
        self.started
    }

    /// Records one more processed object.
    pub fn increment(&mut self)
        requires
            old(self).completed < u64::MAX,
        ensures
            final(self).completed == old(self).completed + 1,
            final(self).started == old(self).started,
            final(self).total == old(self).total,
            final(self).errors == old(self).errors,
    {
        self.completed = self.completed + 1;
    }

    /// Appends a message to the given object's list and returns the new
    /// list.
    pub fn error(&mut self, object_id: u128, message: String) -> (r: Vec<String>)
        requires
            old(self).wf(),
        ensures
            final(self).wf(),
            final(self).started == old(self).started,
            final(self).total == old(self).total,
            final(self).completed == old(self).completed,
            final(self).has_errors(object_id),
            final(self).error_messages(object_id) == old(self).messages_or_empty(
                object_id,
            ).push(message),
            r@ == final(self).error_messages(object_id),
            forall|x: u128|
                x != object_id ==> (#[trigger] final(self).has_errors(x) <==> old(self).has_errors(x)),
            forall|x: u128|
                x != object_id && old(self).has_errors(x) ==> #[trigger] final(self).error_messages(x) == old(self).error_messages(x),
    {
        let removed = remove_key(&mut self.errors, object_id);
        let mut list: Vec<String> = match removed {
            Some(pair) => pair.1,
            None => Vec::new(),
        };
        list.push(message);
        let copy = clone_strings(&list);
        insert_new(&mut self.errors, object_id, list);
        copy
    }

    /// Removes the given object from the error log and returns an empty
    /// list.
    pub fn clear_error(&mut self, object_id: u128) -> (r: Vec<String>)
        requires
            old(self).wf(),
        ensures
            final(self).wf(),
            final(self).started == old(self).started,
            final(self).total == old(self).total,
            final(self).completed == old(self).completed,
            !final(self).has_errors(object_id),
            r@ == Seq::<String>::empty(),
            forall|x: u128|
                x != object_id ==> (#[trigger] final(self).has_errors(x) <==> old(self).has_errors(x)),
            forall|x: u128|
                x != object_id && old(self).has_errors(x) ==> #[trigger] final(self).error_messages(x) == old(self).error_messages(x),
    {
        let _ = remove_key(&mut self.errors, object_id);
        Vec::new()
    }

    /// A snapshot of the error log, one record per object, suitable for a
    /// bulk catalog update.
    pub fn messages(&self) -> (r: Vec<ObjectError>)
        ensures
            r@.len() == self.errors@.len(),
            forall|i: int|
                0 <= i < r@.len() ==> (#[trigger] r@[i]).object_id == self.errors@[i].0
                    && r@[i].messages@ == self.errors@[i].1@,
    {
        let mut r: Vec<ObjectError> = Vec::new();
        let mut i: usize = 0;
        while i < self.errors.len()
            invariant
                i <= self.errors@.len(),
                r@.len() == i,
                forall|j: int|
                    0 <= j < i ==> (#[trigger] r@[j]).object_id == self.errors@[j].0
                        && r@[j].messages@ == self.errors@[j].1@,
            decreases self.errors@.len() - i,
        {
            let record = ObjectError {
                object_id: self.errors[i].0,
                messages: clone_strings(&self.errors[i].1),
            };
            r.push(record);
            i = i + 1;
        }
        r
    }
}

} // verus!
