//! The entry table: an append-only collection of [`Entry`] rows with unique
//! paths, mirroring a store whose `path` column carries a uniqueness
//! constraint and whose inserts treat a duplicate path as a silent success.
use vstd::prelude::*;

use crate::entry::{Entry, EntryModel, Kind};

verus! {

/// Whether some row of `t` has path `p`.
pub open spec fn has_path(t: Seq<EntryModel>, p: Seq<char>) -> bool {
    exists|i: int| 0 <= i < t.len() && #[trigger] t[i].path == p
}

/// Whether some row of `t` is a directory entry with path `p`.
pub open spec fn has_dir(t: Seq<EntryModel>, p: Seq<char>) -> bool {
    exists|i: int| 0 <= i < t.len() && #[trigger] t[i].path == p && t[i].kind == Kind::Dir
}

/// No two rows of `t` share a path.
pub open spec fn unique_paths(t: Seq<EntryModel>) -> bool {
    forall|i: int, j: int|
        0 <= i < t.len() && 0 <= j < t.len() && #[trigger] t[i].path == #[trigger] t[j].path
            ==> i == j
}

/// What one insert attempt does to the rows: appends the entry, unless its
/// path is already present, in which case the rows are left unchanged.
pub open spec fn insert_model(t: Seq<EntryModel>, e: EntryModel) -> Seq<EntryModel> {
    if has_path(t, e.path) {
        t
    } else {
        t.push(e)
    }
}

/// What inserting each entry of `es` in order does to the rows.
pub open spec fn insert_all(t: Seq<EntryModel>, es: Seq<EntryModel>) -> Seq<EntryModel>
    decreases es.len(),
{
    if es.len() == 0 {
        t
    } else {
        insert_all(insert_model(t, es[0]), es.skip(1))
    }
}

/// An insert never removes a path that was already present.
pub proof fn lemma_insert_keeps_paths(t: Seq<EntryModel>, e: EntryModel, p: Seq<char>)
    requires
        has_path(t, p),
    ensures
        has_path(insert_model(t, e), p),
{
    let i = choose|i: int| 0 <= i < t.len() && #[trigger] t[i].path == p;
    assert(insert_model(t, e)[i].path == p);
}

/// A directory row survives any insert.
pub proof fn lemma_insert_keeps_dirs(t: Seq<EntryModel>, e: EntryModel, p: Seq<char>)
    requires
        has_dir(t, p),
    ensures
        has_dir(insert_model(t, e), p),
{
    let i = choose|i: int|
        0 <= i < t.len() && #[trigger] t[i].path == p && t[i].kind == Kind::Dir;
    assert(insert_model(t, e)[i].path == p && insert_model(t, e)[i].kind == Kind::Dir);
}

/// An insert leaves the entry's path present.
pub proof fn lemma_insert_establishes_path(t: Seq<EntryModel>, e: EntryModel)
    ensures
        has_path(insert_model(t, e), e.path),
{
    if !has_path(t, e.path) {
        assert(insert_model(t, e)[t.len() as int].path == e.path);
    }
}

/// An insert preserves path uniqueness.
pub proof fn lemma_insert_preserves_unique(t: Seq<EntryModel>, e: EntryModel)
    requires
        unique_paths(t),
    ensures
        unique_paths(insert_model(t, e)),
{
    if !has_path(t, e.path) {
        let r = t.push(e);
        assert forall|i: int, j: int|
            0 <= i < r.len() && 0 <= j < r.len() && #[trigger] r[i].path == #[trigger] r[j].path
                implies i == j by {
            if i < t.len() && j == t.len() {
                assert(t[i].path == e.path);
            }
            if j < t.len() && i == t.len() {
                assert(t[j].path == e.path);
            }
        }
    }
}

/// After inserting every entry of `es`, every path of `es` is present.
pub proof fn lemma_insert_all_establishes_paths(t: Seq<EntryModel>, es: Seq<EntryModel>)
    ensures
        forall|k: int|
            0 <= k < es.len() ==> has_path(insert_all(t, es), #[trigger] es[k].path),
    decreases es.len(),
{
    if es.len() > 0 {
        let t1 = insert_model(t, es[0]);
        lemma_insert_all_establishes_paths(t1, es.skip(1));
        lemma_insert_establishes_path(t, es[0]);
        lemma_insert_all_keeps_paths(t1, es.skip(1), es[0].path);
        assert forall|k: int|
            0 <= k < es.len() implies has_path(insert_all(t, es), #[trigger] es[k].path) by {
            if k > 0 {
                assert(es.skip(1)[k - 1] == es[k]);
            }
        }
    }
}

/// Inserting a sequence never removes a path that was already present.
pub proof fn lemma_insert_all_keeps_paths(t: Seq<EntryModel>, es: Seq<EntryModel>, p: Seq<char>)
    requires
        has_path(t, p),
    ensures
        has_path(insert_all(t, es), p),
    decreases es.len(),
{
    if es.len() > 0 {
        lemma_insert_keeps_paths(t, es[0], p);
        lemma_insert_all_keeps_paths(insert_model(t, es[0]), es.skip(1), p);
    }
}

/// Inserting entries whose paths are all already present changes nothing.
pub proof fn lemma_insert_all_known_paths_is_noop(t: Seq<EntryModel>, es: Seq<EntryModel>)
    requires
        forall|k: int| 0 <= k < es.len() ==> has_path(t, #[trigger] es[k].path),
    ensures
        insert_all(t, es) == t,
    decreases es.len(),
{
    if es.len() > 0 {
        assert(insert_model(t, es[0]) == t);
        assert forall|k: int|
            0 <= k < es.skip(1).len() implies has_path(t, #[trigger] es.skip(1)[k].path) by {
            assert(es.skip(1)[k] == es[k + 1]);
        }
        lemma_insert_all_known_paths_is_noop(t, es.skip(1));
    }
}

/// Law: re-inserting a sequence of entries is a no-op — replaying the same
/// scan against rows it already produced leaves the row set unchanged.
pub proof fn lemma_insert_all_idempotent(t: Seq<EntryModel>, es: Seq<EntryModel>)
    ensures
        insert_all(insert_all(t, es), es) == insert_all(t, es),
{
    lemma_insert_all_establishes_paths(t, es);
    lemma_insert_all_known_paths_is_noop(insert_all(t, es), es);
}

/// What one insert attempt against the backing store reported.
#[derive(Clone, Copy, PartialEq, Eq, Structural, Debug)]
pub enum StoreOutcome {
    /// The row was written.
    Done,
    /// The store refused the row because its path is already present.
    DuplicatePath,
    /// The store failed for any other reason.
    Failed,
}

/// Whether a run goes on after an insert attempt.
#[derive(Clone, Copy, PartialEq, Eq, Structural, Debug)]
pub enum StoreDecision {
    Proceed,
    Fatal,
}

/// Classifies an insert attempt's outcome: a duplicate path is treated as
/// success exactly like a written row, and only that conflict kind —
/// every other store failure is fatal to the run.
pub fn classify_store_outcome(o: &StoreOutcome) -> (r: StoreDecision)
    ensures
        r == StoreDecision::Proceed <==> !(o is Failed),
{
    match o {
        StoreOutcome::Done => StoreDecision::Proceed,
        StoreOutcome::DuplicatePath => StoreDecision::Proceed,
        StoreOutcome::Failed => StoreDecision::Fatal,
    }
}

/// The entry table. Its value is the sequence of rows in insertion order;
/// its invariant is that no two rows share a path.
pub struct Table {
    entries: Vec<Entry>,
}

impl View for Table {
    type V = Seq<EntryModel>;

    closed spec fn view(&self) -> Seq<EntryModel> {
        self.entries@.map_values(|e: Entry| e@)
    }
}

impl Table {
    /// The table's invariant: paths are unique across all rows.
    pub open spec fn wf(&self) -> bool {
        unique_paths(self@)
    }

    /// An empty table.
    pub fn new() -> (t: Table)
        ensures
            t@ == Seq::<EntryModel>::empty(),
            t.wf(),
    {
        let t = Table { entries: Vec::new() };
        proof {
            assert(t@ =~= Seq::<EntryModel>::empty());
        }
        t
    }

    /// The number of rows.
    pub fn len(&self) -> (n: usize)
        ensures
            n == self@.len(),
    {
        self.entries.len()
    }

    /// The `i`-th row in insertion order.
    pub fn get(&self, i: usize) -> (e: &Entry)
        requires
            i < self@.len(),
        ensures
            e@ == self@[i as int],
    {
        &self.entries[i]
    }

    /// Whether some row has path `p`.
    pub fn contains_path(&self, p: &String) -> (r: bool)
        ensures
            r == has_path(self@, p@),
    {
        let n = self.entries.len();
        let mut i: usize = 0;
        while i < n
            invariant
                n == self.entries@.len(),
                0 <= i <= n,
                forall|k: int| 0 <= k < i ==> #[trigger] self@[k].path != p@,
            decreases n - i,
        {
            if self.entries[i].path == *p {
                assert(self@[i as int].path == p@);
                return true;
            }
            i += 1;
        }
        false
    }

    /// Whether some row is a directory entry with path `p`.
    pub fn contains_dir(&self, p: &String) -> (r: bool)
        ensures
            r == has_dir(self@, p@),
    {
        let n = self.entries.len();
        let mut i: usize = 0;
        while i < n
            invariant
                n == self.entries@.len(),
                0 <= i <= n,
                forall|k: int|
                    0 <= k < i ==> !(#[trigger] self@[k].path == p@ && self@[k].kind
                        == Kind::Dir),
            decreases n - i,
        {
            let e = &self.entries[i];
            if e.kind == Kind::Dir && e.path == *p {
                assert(self@[i as int].path == p@ && self@[i as int].kind == Kind::Dir);
                return true;
            }
            i += 1;
        }
        false
    }

    /// One insert attempt. Appends the entry unless its path is already
    /// present; a duplicate path is a silent no-op, never an error.
    pub fn insert(&mut self, e: Entry) -> (added: bool)
        requires
            old(self).wf(),
        ensures
            final(self).wf(),
            added == !has_path(old(self)@, e@.path),
            final(self)@ == insert_model(old(self)@, e@),
    {
        proof {
            lemma_insert_preserves_unique(self@, e@);
        }
        if self.contains_path(&e.path) {
            false
        } else {
            let ghost before = self@;
            self.entries.push(e);
            proof {
                assert(self@ =~= before.push(e@));
            }
            true
        }
    }
}

} // verus!
