//! Turning the changes that a trie update produces into database changes,
//! and the decisions of the write benchmark around them.

use vstd::prelude::*;
use crate::child_tree::copy_bytes;

verus! {

/// One node change of a trie update: its database key, its value, and its
/// reference-count change (positive for an insertion, negative for a
/// removal, zero for no change).
pub struct TrieChange {
    pub key: Vec<u8>,
    pub value: Vec<u8>,
    pub rc: i32,
}

/// A change to the database.
#[derive(PartialEq, Eq, Debug)]
pub enum DbChange {
    Write(Vec<u8>, Vec<u8>),
    Remove(Vec<u8>),
}

/// The abstract form of a database change.
pub enum DbChangeView {
    Write(Seq<u8>, Seq<u8>),
    Remove(Seq<u8>),
}

pub open spec fn db_change_view(c: DbChange) -> DbChangeView {
    match c {
        DbChange::Write(k, v) => DbChangeView::Write(k@, v@),
        DbChange::Remove(k) => DbChangeView::Remove(k@),
    }
}

pub open spec fn db_change_views(s: Seq<DbChange>) -> Seq<DbChangeView> {
    s.map_values(|c: DbChange| db_change_view(c))
}

/// The database changes for the first `n` trie changes: each insertion
/// becomes a write of its value, or, when `invert_inserts` is set, a removal
/// of its key; removals and unchanged nodes are left out.
pub open spec fn converted(changes: Seq<TrieChange>, invert_inserts: bool, n: int) -> Seq<DbChangeView>
    decreases n,
{
    if n <= 0 {
        Seq::empty()
    } else {
        let rest = converted(changes, invert_inserts, n - 1);
        let c = changes[n - 1];
        if c.rc > 0 {
            if invert_inserts {
                rest.push(DbChangeView::Remove(c.key@))
            } else {
                rest.push(DbChangeView::Write(c.key@, c.value@))
            }
        } else {
            rest
        }
    }
}

/// Converts a trie update into a database transaction. Removals are left
/// out; `invert_inserts` turns every insertion into a removal, which undoes
/// the transaction.
pub fn convert_tx(changes: &Vec<TrieChange>, invert_inserts: bool) -> (r: Vec<DbChange>)
    ensures
        db_change_views(r@) == converted(changes@, invert_inserts, changes.len() as int),
{
    let mut r: Vec<DbChange> = Vec::new();
    let mut i: usize = 0;
    proof {
        assert(db_change_views(r@) =~= Seq::<DbChangeView>::empty());
    }
    while i < changes.len()
        invariant
            i <= changes.len(),
            db_change_views(r@) == converted(changes@, invert_inserts, i as int),
        decreases changes.len() - i,
    {
        let c = &changes[i];
        let ghost before = r@;
        if c.rc > 0 {
            if invert_inserts {
                r.push(DbChange::Remove(copy_bytes(&c.key)));
            } else {
                r.push(DbChange::Write(copy_bytes(&c.key), copy_bytes(&c.value)));
            }
            proof {
                assert(db_change_views(r@) =~= db_change_views(before).push(db_change_view(r@.last())));
            }
        }
        i = i + 1;
    }
    r
}

/// Whether a new value can be written without colliding with the database:
/// no key that the update inserts is already present. `in_db[i]` tells
/// whether the key of `changes[i]` is in the database.
pub fn check_new_value(changes: &Vec<TrieChange>, in_db: &Vec<bool>) -> (r: bool)
    requires
        in_db.len() == changes.len(),
    ensures
        r <==> forall|i: int| 0 <= i < changes.len() ==> !(#[trigger] changes@[i].rc > 0 && in_db@[i]),
{
    let mut i: usize = 0;
    while i < changes.len()
        invariant
            i <= changes.len() == in_db.len(),
            forall|j: int| 0 <= j < i ==> !(#[trigger] changes@[j].rc > 0 && in_db@[j]),
        decreases changes.len() - i,
    {
        if changes[i].rc > 0 && in_db[i] {
            return false;
        }
        i = i + 1;
    }
    true
}

/// How many times the write benchmark draws a fresh value for a key before
/// giving the key up.
pub const WRITE_ATTEMPTS: u32 = 3;

/// What the write benchmark does after checking a fresh value.
#[derive(Clone, Copy, PartialEq, Eq, Structural, Debug)]
pub enum AttemptStep {
    /// The value collides with nothing: write it.
    Write,
    /// Draw another value.
    Retry,
    /// Every attempt collided: skip the key.
    GiveUp,
}

/// The attempts left for the current key.
pub struct WriteAttempts {
    pub repeats: u32,
}

impl WriteAttempts {
    /// A fresh key gets all its attempts.
    pub fn new() -> (a: Self)
        ensures
            a.repeats == WRITE_ATTEMPTS,
    {
        WriteAttempts { repeats: WRITE_ATTEMPTS }
    }

    /// Takes the outcome of a collision check: a value that collides with
    /// nothing is written; otherwise one attempt is used up, and once none
    /// is left the key is given up.
    pub fn after_check(&mut self, collision_free: bool) -> (step: AttemptStep)
        requires
            old(self).repeats > 0,
        ensures
            collision_free ==> step == AttemptStep::Write && final(self).repeats == old(self).repeats,
            !collision_free ==> final(self).repeats == old(self).repeats - 1,
            !collision_free && final(self).repeats > 0 ==> step == AttemptStep::Retry,
            !collision_free && final(self).repeats == 0 ==> step == AttemptStep::GiveUp,
    {
        if collision_free {
            return AttemptStep::Write;
        }
        self.repeats = self.repeats - 1;
        if self.repeats == 0 {
            AttemptStep::GiveUp
        } else {
            AttemptStep::Retry
        }
    }
}

} // verus!
