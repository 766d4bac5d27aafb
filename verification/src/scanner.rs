//! The scan state machine.
//!
//! The caller performs the directory listings; the scanner owns every
//! decision: which directory to list next, which entries to record with
//! which parent, when a global ceiling on visited entries stops the whole
//! run. One listing event is folded in by [`Scanner::record_listing`], whose
//! result is pinned down, child by child, by the spec functions
//! [`step_child`] and [`apply_children`].
use vstd::prelude::*;

use crate::entry::{Entry, EntryModel, Kind};
use crate::table::{has_dir, has_path, insert_model, unique_paths, Table};
use crate::table::{lemma_insert_keeps_dirs, lemma_insert_preserves_unique};

verus! {

/// The most entries one run will record beyond the starting directory:
/// once this many children have been visited, the rest of the traversal is
/// abandoned.
pub const SCAN_CEILING: u32 = 6000;

/// The run's visit budget: a counter of entries visited so far, charged
/// once per child encountered, with an explicit lifecycle (zero at scan
/// start, never reset mid-scan). It is the single process-wide gate that
/// bounds total work, so every traversal step must go through
/// [`ScanBudget::try_charge`], whatever concurrency drives the steps.
pub struct ScanBudget {
    pub used: u32,
}

impl ScanBudget {
    /// A fresh budget with nothing used.
    pub fn new() -> (b: ScanBudget)
        ensures
            b.used == 0,
    {
        ScanBudget { used: 0 }
    }

    /// Charges one visit. Fails exactly when the ceiling is reached, and
    /// then leaves the counter where it is.
    pub fn try_charge(&mut self) -> (ok: bool)
        ensures
            ok == (old(self).used < SCAN_CEILING),
            ok ==> final(self).used == old(self).used + 1,
            !ok ==> final(self).used == old(self).used,
    {
        if self.used < SCAN_CEILING {
            self.used = self.used + 1;
            true
        } else {
            false
        }
    }
}

/// One child reported by a directory listing: its absolute path, its base
/// name, and whether it is a file or a directory.
pub struct Child {
    pub path: String,
    pub name: String,
    pub kind: Kind,
}

/// The mathematical value of a [`Child`].
pub struct ChildModel {
    pub path: Seq<char>,
    pub name: Seq<char>,
    pub kind: Kind,
}

impl View for Child {
    type V = ChildModel;

    open spec fn view(&self) -> ChildModel {
        ChildModel { path: self.path@, name: self.name@, kind: self.kind }
    }
}

/// The entry recorded for child `c` of the directory at `parent`.
pub open spec fn child_entry(parent: Seq<char>, c: ChildModel) -> EntryModel {
    EntryModel { path: c.path, parent_path: parent, name: c.name, kind: c.kind }
}

/// The abstract state of a scan: the rows recorded so far, the visits
/// charged so far, the directories still awaiting a listing, and whether
/// the ceiling has tripped and abandoned the rest of the run.
#[verifier::ext_equal]
pub struct ScanState {
    pub table: Seq<EntryModel>,
    pub used: int,
    pub pending: Seq<Seq<char>>,
    pub tripped: bool,
}

/// What one child does to the scan state. If the budget is exhausted the
/// ceiling trips: nothing is recorded and every pending directory is
/// abandoned. Otherwise one visit is charged, the child's entry is
/// inserted (a no-op on a known path), and a directory child whose path
/// now names a directory row is queued for listing.
pub open spec fn step_child(st: ScanState, parent: Seq<char>, c: ChildModel) -> ScanState {
    if st.used >= SCAN_CEILING {
        ScanState { table: st.table, used: st.used, pending: Seq::empty(), tripped: true }
    } else {
        let t2 = insert_model(st.table, child_entry(parent, c));
        let p2 = if c.kind == Kind::Dir && has_dir(t2, c.path) {
            st.pending.push(c.path)
        } else {
            st.pending
        };
        ScanState { table: t2, used: st.used + 1, pending: p2, tripped: false }
    }
}

/// What one whole listing does to the scan state: the children are folded
/// in order, and a tripped ceiling skips everything that remains.
pub open spec fn apply_children(st: ScanState, parent: Seq<char>, cs: Seq<ChildModel>) -> ScanState
    decreases cs.len(),
{
    if cs.len() == 0 {
        st
    } else if st.tripped {
        st
    } else {
        apply_children(step_child(st, parent, cs[0]), parent, cs.skip(1))
    }
}

/// Every non-root row is preceded by a directory row whose path is its
/// `parent_path`: parents are always recorded before their children.
pub open spec fn parents_precede(t: Seq<EntryModel>) -> bool {
    forall|i: int|
        0 <= i < t.len() && (#[trigger] t[i]).parent_path != "root"@ ==> exists|j: int|
            0 <= j < i && (#[trigger] t[j]).path == t[i].parent_path && t[j].kind == Kind::Dir
}

/// The scan state's invariant.
pub open spec fn wf_state(st: ScanState) -> bool {
    &&& unique_paths(st.table)
    &&& parents_precede(st.table)
    &&& forall|k: int| 0 <= k < st.pending.len() ==> has_dir(st.table, #[trigger] st.pending[k])
    &&& 0 <= st.used <= SCAN_CEILING
    &&& st.table.len() <= 1 + st.used
    &&& st.tripped ==> st.used == SCAN_CEILING && st.pending.len() == 0
}

/// Once the ceiling has tripped, further listings change nothing.
pub proof fn lemma_apply_tripped(st: ScanState, parent: Seq<char>, cs: Seq<ChildModel>)
    requires
        st.tripped,
    ensures
        apply_children(st, parent, cs) == st,
{
}

/// One step preserves the invariant, and keeps the listed directory's row.
pub proof fn lemma_step_preserves_wf(st: ScanState, parent: Seq<char>, c: ChildModel)
    requires
        wf_state(st),
        has_dir(st.table, parent),
    ensures
        wf_state(step_child(st, parent, c)),
        has_dir(step_child(st, parent, c).table, parent),
{
    if st.used < SCAN_CEILING {
        let e = child_entry(parent, c);
        let t2 = insert_model(st.table, e);
        lemma_insert_preserves_unique(st.table, e);
        lemma_insert_keeps_dirs(st.table, e, parent);
        assert forall|k: int|
            0 <= k < st.pending.len() implies has_dir(t2, #[trigger] st.pending[k]) by {
            lemma_insert_keeps_dirs(st.table, e, st.pending[k]);
        }
        assert(parents_precede(t2)) by {
            if !has_path(st.table, e.path) {
                assert forall|i: int|
                    0 <= i < t2.len() && (#[trigger] t2[i]).parent_path != "root"@ implies exists|
                    j: int,
                |
                    0 <= j < i && (#[trigger] t2[j]).path == t2[i].parent_path && t2[j].kind
                        == Kind::Dir by {
                    if i < st.table.len() {
                        let j = choose|j: int|
                            0 <= j < i && (#[trigger] st.table[j]).path == st.table[i].parent_path
                                && st.table[j].kind == Kind::Dir;
                        assert(t2[j].path == t2[i].parent_path && t2[j].kind == Kind::Dir);
                    } else {
                        let j = choose|j: int|
                            0 <= j < st.table.len() && (#[trigger] st.table[j]).path == parent
                                && st.table[j].kind == Kind::Dir;
                        assert(t2[j].path == t2[i].parent_path && t2[j].kind == Kind::Dir);
                    }
                }
            }
        }
    }
}

/// A recorded path survives a whole listing.
pub proof fn lemma_apply_keeps_paths(
    st: ScanState,
    parent: Seq<char>,
    cs: Seq<ChildModel>,
    p: Seq<char>,
)
    requires
        has_path(st.table, p),
    ensures
        has_path(apply_children(st, parent, cs).table, p),
    decreases cs.len(),
{
    if cs.len() > 0 && !st.tripped {
        if st.used < SCAN_CEILING {
            crate::table::lemma_insert_keeps_paths(st.table, child_entry(parent, cs[0]), p);
        }
        lemma_apply_keeps_paths(step_child(st, parent, cs[0]), parent, cs.skip(1), p);
    }
}

/// Law (completeness below the ceiling): a listing that fits in what is
/// left of the budget is charged in full, trips nothing, and leaves every
/// one of its children's paths recorded.
pub proof fn lemma_listing_complete(st: ScanState, parent: Seq<char>, cs: Seq<ChildModel>)
    requires
        !st.tripped,
        st.used + cs.len() <= SCAN_CEILING,
    ensures
        apply_children(st, parent, cs).used == st.used + cs.len(),
        !apply_children(st, parent, cs).tripped,
        forall|k: int|
            0 <= k < cs.len() ==> has_path(
                apply_children(st, parent, cs).table,
                (#[trigger] cs[k]).path,
            ),
    decreases cs.len(),
{
    if cs.len() > 0 {
        let st1 = step_child(st, parent, cs[0]);
        lemma_listing_complete(st1, parent, cs.skip(1));
        crate::table::lemma_insert_establishes_path(st.table, child_entry(parent, cs[0]));
        lemma_apply_keeps_paths(st1, parent, cs.skip(1), cs[0].path);
        assert forall|k: int|
            0 <= k < cs.len() implies has_path(
            apply_children(st, parent, cs).table,
            (#[trigger] cs[k]).path,
        ) by {
            if k > 0 {
                assert(cs.skip(1)[k - 1] == cs[k]);
            }
        }
    }
}

/// Law (the ceiling is a global circuit breaker): a listing that overruns
/// what is left of the budget charges exactly up to the ceiling, trips the
/// run, and abandons every pending directory.
pub proof fn lemma_ceiling_trips(st: ScanState, parent: Seq<char>, cs: Seq<ChildModel>)
    requires
        !st.tripped,
        0 <= st.used <= SCAN_CEILING,
        st.used + cs.len() > SCAN_CEILING,
    ensures
        apply_children(st, parent, cs).used == SCAN_CEILING,
        apply_children(st, parent, cs).tripped,
        apply_children(st, parent, cs).pending == Seq::<Seq<char>>::empty(),
    decreases cs.len(),
{
    let st1 = step_child(st, parent, cs[0]);
    if st.used >= SCAN_CEILING {
        lemma_apply_tripped(st1, parent, cs.skip(1));
    } else {
        lemma_ceiling_trips(st1, parent, cs.skip(1));
    }
}

/// How many children of a listing of length `n` are recorded when the
/// budget stands at `used`: all of them if they fit under the ceiling,
/// and exactly what is left of the budget otherwise.
pub open spec fn admitted_count(used: int, n: nat) -> int {
    if used + n <= SCAN_CEILING {
        n as int
    } else if used <= SCAN_CEILING {
        SCAN_CEILING - used
    } else {
        0
    }
}

/// Law (exactly once, counted): a listing of children with fresh,
/// pairwise-distinct paths grows the table by exactly the number of
/// children the budget admits — each admitted child becomes exactly one
/// new row, and nothing beyond the ceiling is recorded.
pub proof fn lemma_fresh_listing_counts_rows(st: ScanState, parent: Seq<char>, cs: Seq<ChildModel>)
    requires
        !st.tripped,
        0 <= st.used <= SCAN_CEILING,
        forall|k: int| 0 <= k < cs.len() ==> !has_path(st.table, (#[trigger] cs[k]).path),
        forall|k: int, l: int| 0 <= k < l < cs.len() ==> cs[k].path != cs[l].path,
    ensures
        apply_children(st, parent, cs).table.len() == st.table.len() + admitted_count(
            st.used,
            cs.len(),
        ),
    decreases cs.len(),
{
    if cs.len() > 0 {
        let st1 = step_child(st, parent, cs[0]);
        if st.used >= SCAN_CEILING {
            lemma_apply_tripped(st1, parent, cs.skip(1));
        } else {
            assert(!has_path(st.table, cs[0].path));
            assert(st1.table == st.table.push(child_entry(parent, cs[0])));
            assert forall|k: int|
                0 <= k < cs.skip(1).len() implies !has_path(
                st1.table,
                (#[trigger] cs.skip(1)[k]).path,
            ) by {
                assert(cs.skip(1)[k] == cs[k + 1]);
                if has_path(st1.table, cs[k + 1].path) {
                    let i = choose|i: int|
                        0 <= i < st1.table.len() && #[trigger] st1.table[i].path == cs[k + 1].path;
                    if i < st.table.len() {
                        assert(has_path(st.table, cs[k + 1].path));
                    } else {
                        assert(cs[0].path == cs[k + 1].path);
                    }
                }
            }
            assert forall|k: int, l: int|
                0 <= k < l < cs.skip(1).len() implies cs.skip(1)[k].path != cs.skip(1)[l].path by {
                assert(cs.skip(1)[k] == cs[k + 1]);
                assert(cs.skip(1)[l] == cs[l + 1]);
            }
            lemma_fresh_listing_counts_rows(st1, parent, cs.skip(1));
        }
    }
}

/// Law (idempotent rescan): a listing whose children's paths are all
/// already recorded adds, removes and changes no row, whether or not the
/// ceiling trips along the way.
pub proof fn lemma_relisting_changes_no_rows(
    st: ScanState,
    parent: Seq<char>,
    cs: Seq<ChildModel>,
)
    requires
        forall|k: int| 0 <= k < cs.len() ==> has_path(st.table, (#[trigger] cs[k]).path),
    ensures
        apply_children(st, parent, cs).table == st.table,
    decreases cs.len(),
{
    if cs.len() > 0 && !st.tripped {
        let st1 = step_child(st, parent, cs[0]);
        assert(st1.table == st.table);
        assert forall|k: int|
            0 <= k < cs.skip(1).len() implies has_path(st1.table, (#[trigger] cs.skip(1)[k]).path) by {
            assert(cs.skip(1)[k] == cs[k + 1]);
        }
        lemma_relisting_changes_no_rows(st1, parent, cs.skip(1));
    }
}

/// One listing event of a run: the directory that was listed and the
/// children it reported.
pub struct ListingEvent {
    pub parent: Seq<char>,
    pub children: Seq<ChildModel>,
}

/// What a whole run of listings does to the scan state: the events are
/// folded in order.
pub open spec fn apply_events(st: ScanState, es: Seq<ListingEvent>) -> ScanState
    decreases es.len(),
{
    if es.len() == 0 {
        st
    } else {
        apply_events(apply_children(st, es[0].parent, es[0].children), es.skip(1))
    }
}

/// The total number of children over a run's listings.
pub open spec fn total_children(es: Seq<ListingEvent>) -> nat
    decreases es.len(),
{
    if es.len() == 0 {
        0
    } else {
        es[0].children.len() + total_children(es.skip(1))
    }
}

/// Once the ceiling has tripped, a whole run of listings changes nothing.
pub proof fn lemma_events_tripped(st: ScanState, es: Seq<ListingEvent>)
    requires
        st.tripped,
    ensures
        apply_events(st, es) == st,
    decreases es.len(),
{
    if es.len() > 0 {
        lemma_apply_tripped(st, es[0].parent, es[0].children);
        lemma_events_tripped(st, es.skip(1));
    }
}

/// A recorded path survives a whole run of listings.
pub proof fn lemma_events_keep_paths(st: ScanState, es: Seq<ListingEvent>, p: Seq<char>)
    requires
        has_path(st.table, p),
    ensures
        has_path(apply_events(st, es).table, p),
    decreases es.len(),
{
    if es.len() > 0 {
        lemma_apply_keeps_paths(st, es[0].parent, es[0].children, p);
        lemma_events_keep_paths(
            apply_children(st, es[0].parent, es[0].children),
            es.skip(1),
            p,
        );
    }
}

/// One whole listing preserves path uniqueness.
proof fn lemma_apply_preserves_unique(st: ScanState, parent: Seq<char>, cs: Seq<ChildModel>)
    requires
        unique_paths(st.table),
    ensures
        unique_paths(apply_children(st, parent, cs).table),
    decreases cs.len(),
{
    if cs.len() > 0 && !st.tripped {
        if st.used < SCAN_CEILING {
            lemma_insert_preserves_unique(st.table, child_entry(parent, cs[0]));
        }
        lemma_apply_preserves_unique(step_child(st, parent, cs[0]), parent, cs.skip(1));
    }
}

/// Law (completeness, whole run): a run whose listings together fit in
/// what is left of the budget is charged in full, never trips, and ends
/// with every listed child's path recorded — exactly once, since paths
/// stay unique.
pub proof fn lemma_run_complete(st: ScanState, es: Seq<ListingEvent>)
    requires
        !st.tripped,
        unique_paths(st.table),
        st.used + total_children(es) <= SCAN_CEILING,
    ensures
        apply_events(st, es).used == st.used + total_children(es),
        !apply_events(st, es).tripped,
        unique_paths(apply_events(st, es).table),
        forall|k: int, j: int|
            0 <= k < es.len() && 0 <= j < es[k].children.len() ==> has_path(
                apply_events(st, es).table,
                (#[trigger] es[k].children[j]).path,
            ),
    decreases es.len(),
{
    if es.len() > 0 {
        let e0 = es[0];
        let st1 = apply_children(st, e0.parent, e0.children);
        lemma_listing_complete(st, e0.parent, e0.children);
        lemma_apply_preserves_unique(st, e0.parent, e0.children);
        lemma_run_complete(st1, es.skip(1));
        assert forall|k: int, j: int|
            0 <= k < es.len() && 0 <= j < es[k].children.len() implies has_path(
            apply_events(st, es).table,
            (#[trigger] es[k].children[j]).path,
        ) by {
            if k == 0 {
                lemma_events_keep_paths(st1, es.skip(1), es[0].children[j].path);
            } else {
                assert(es.skip(1)[k - 1] == es[k]);
            }
        }
    }
}

/// Law (the ceiling is a circuit breaker, whole run): a run whose
/// listings together overrun what is left of the budget charges exactly
/// up to the ceiling, trips, and abandons every pending directory —
/// ending the run without error.
pub proof fn lemma_run_trips(st: ScanState, es: Seq<ListingEvent>)
    requires
        !st.tripped,
        0 <= st.used <= SCAN_CEILING,
        st.used + total_children(es) > SCAN_CEILING,
    ensures
        apply_events(st, es).used == SCAN_CEILING,
        apply_events(st, es).tripped,
        apply_events(st, es).pending == Seq::<Seq<char>>::empty(),
    decreases es.len(),
{
    let e0 = es[0];
    let st1 = apply_children(st, e0.parent, e0.children);
    if st.used + e0.children.len() > SCAN_CEILING {
        lemma_ceiling_trips(st, e0.parent, e0.children);
        lemma_events_tripped(st1, es.skip(1));
    } else {
        lemma_listing_complete(st, e0.parent, e0.children);
        lemma_run_trips(st1, es.skip(1));
    }
}

/// A path present after one listing was present before it or is one of
/// the listing's children.
proof fn lemma_apply_table_paths(st: ScanState, parent: Seq<char>, cs: Seq<ChildModel>, p: Seq<char>)
    requires
        has_path(apply_children(st, parent, cs).table, p),
    ensures
        has_path(st.table, p) || exists|j: int| 0 <= j < cs.len() && (#[trigger] cs[j]).path == p,
    decreases cs.len(),
{
    if cs.len() > 0 && !st.tripped {
        let st1 = step_child(st, parent, cs[0]);
        lemma_apply_table_paths(st1, parent, cs.skip(1), p);
        if has_path(st1.table, p) {
            if !has_path(st.table, p) {
                let i = choose|i: int|
                    0 <= i < st1.table.len() && #[trigger] st1.table[i].path == p;
                assert(cs[0].path == p);
            }
        } else {
            let j = choose|j: int|
                0 <= j < cs.skip(1).len() && (#[trigger] cs.skip(1)[j]).path == p;
            assert(cs[j + 1].path == p);
        }
    }
}

/// Law (exactly once, counted, whole run): a run of listings whose
/// children's paths are new and pairwise distinct across the whole run
/// grows the table by exactly the number of children the budget admits —
/// all of them when the run fits under the ceiling, and exactly what was
/// left of the budget when it does not.
pub proof fn lemma_fresh_run_counts_rows(st: ScanState, es: Seq<ListingEvent>)
    requires
        !st.tripped,
        0 <= st.used <= SCAN_CEILING,
        forall|k: int, j: int|
            0 <= k < es.len() && 0 <= j < es[k].children.len() ==> !has_path(
                st.table,
                (#[trigger] es[k].children[j]).path,
            ),
        forall|k: int, j: int, k2: int, j2: int|
            0 <= k < es.len() && 0 <= j < es[k].children.len() && 0 <= k2 < es.len() && 0 <= j2
                < es[k2].children.len() && !(k == k2 && j == j2) ==> (
            #[trigger] es[k].children[j]).path != (#[trigger] es[k2].children[j2]).path,
    ensures
        apply_events(st, es).table.len() == st.table.len() + admitted_count(
            st.used,
            total_children(es),
        ),
    decreases es.len(),
{
    if es.len() > 0 {
        let e0 = es[0];
        let st1 = apply_children(st, e0.parent, e0.children);
        lemma_fresh_listing_counts_rows(st, e0.parent, e0.children);
        if st.used + e0.children.len() > SCAN_CEILING {
            lemma_ceiling_trips(st, e0.parent, e0.children);
            lemma_events_tripped(st1, es.skip(1));
        } else {
            lemma_listing_complete(st, e0.parent, e0.children);
            assert forall|k: int, j: int|
                0 <= k < es.skip(1).len() && 0 <= j < es.skip(1)[k].children.len() implies !has_path(
                st1.table,
                (#[trigger] es.skip(1)[k].children[j]).path,
            ) by {
                assert(es.skip(1)[k] == es[k + 1]);
                let p = es[k + 1].children[j].path;
                if has_path(st1.table, p) {
                    lemma_apply_table_paths(st, e0.parent, e0.children, p);
                    if !has_path(st.table, p) {
                        let j0 = choose|j0: int|
                            0 <= j0 < e0.children.len() && (#[trigger] e0.children[j0]).path == p;
                        assert(es[0].children[j0].path != es[k + 1].children[j].path);
                    }
                }
            }
            assert forall|k: int, j: int, k2: int, j2: int|
                0 <= k < es.skip(1).len() && 0 <= j < es.skip(1)[k].children.len() && 0 <= k2
                    < es.skip(1).len() && 0 <= j2 < es.skip(1)[k2].children.len() && !(k == k2 && j
                    == j2) implies (#[trigger] es.skip(1)[k].children[j]).path != (
            #[trigger] es.skip(1)[k2].children[j2]).path by {
                assert(es.skip(1)[k] == es[k + 1]);
                assert(es.skip(1)[k2] == es[k2 + 1]);
            }
            lemma_fresh_run_counts_rows(st1, es.skip(1));
        }
    }
}

/// Law (idempotent scan, whole run): replaying a run's listings against
/// rows that already hold every listed child — as they do after a scan of
/// the unchanged tree — changes no row, whatever the budget does along
/// the way.
pub proof fn lemma_rerun_changes_no_rows(st: ScanState, es: Seq<ListingEvent>)
    requires
        forall|k: int, j: int|
            0 <= k < es.len() && 0 <= j < es[k].children.len() ==> has_path(
                st.table,
                (#[trigger] es[k].children[j]).path,
            ),
    ensures
        apply_events(st, es).table == st.table,
    decreases es.len(),
{
    if es.len() > 0 {
        lemma_relisting_changes_no_rows(st, es[0].parent, es[0].children);
        let st1 = apply_children(st, es[0].parent, es[0].children);
        assert forall|k: int, j: int|
            0 <= k < es.skip(1).len() && 0 <= j < es.skip(1)[k].children.len() implies has_path(
            st1.table,
            (#[trigger] es.skip(1)[k].children[j]).path,
        ) by {
            assert(es.skip(1)[k] == es[k + 1]);
        }
        lemma_rerun_changes_no_rows(st1, es.skip(1));
    }
}

/// The entry recorded for the scan's starting directory at `root_path`.
pub open spec fn root_entry(root_path: Seq<char>) -> EntryModel {
    EntryModel { path: root_path, parent_path: "root"@, name: "root"@, kind: Kind::Dir }
}

/// The scan driver's state: the rows recorded so far, the visit budget,
/// the stack of directories awaiting a listing, and the tripped flag.
pub struct Scanner {
    pub table: Table,
    pub budget: ScanBudget,
    pub pending: Vec<String>,
    pub tripped: bool,
}

impl Scanner {
    /// The scanner's abstract state.
    pub open spec fn abs(&self) -> ScanState {
        ScanState {
            table: self.table@,
            used: self.budget.used as int,
            pending: self.pending@.map_values(|p: String| p@),
            tripped: self.tripped,
        }
    }

    /// The scanner's invariant.
    pub open spec fn wf(&self) -> bool {
        wf_state(self.abs())
    }

    /// Starts a run: records the starting directory itself as the single
    /// row so far — a directory entry whose `parent_path` and `name` are
    /// the sentinel `"root"` — and queues it for listing.
    pub fn initialize(root_path: String) -> (s: Scanner)
        ensures
            s.wf(),
            s.table@ == seq![root_entry(root_path@)],
            s.budget.used == 0,
            s.pending@.len() == 1 && s.pending@[0]@ == root_path@,
            !s.tripped,
    {
        let mut table = Table::new();
        let root_name: String = "root".to_owned();
        let parent: String = "root".to_owned();
        let e = Entry::new(root_path.clone(), parent, root_name, Kind::Dir);
        table.insert(e);
        let mut pending: Vec<String> = Vec::new();
        pending.push(root_path);
        let s = Scanner { table, budget: ScanBudget::new(), pending, tripped: false };
        proof {
            assert(s.table@ =~= seq![root_entry(s.pending@[0]@)]);
            assert(s.abs().pending =~= seq![s.pending@[0]@]);
            assert(has_dir(s.table@, s.pending@[0]@)) by {
                assert(s.table@[0].path == s.pending@[0]@ && s.table@[0].kind == Kind::Dir);
            }
        }
        s
    }

    /// Pops the next directory awaiting a listing, if any. The path handed
    /// out names a directory row of the table; everything else is left as
    /// it was.
    pub fn next_dir(&mut self) -> (r: Option<String>)
        requires
            old(self).wf(),
        ensures
            final(self).wf(),
            final(self).table@ == old(self).table@,
            final(self).budget.used == old(self).budget.used,
            final(self).tripped == old(self).tripped,
            r is None ==> old(self).pending@.len() == 0 && final(self).abs()
                == old(self).abs(),
            r is Some ==> old(self).pending@.len() > 0 && r->0@ == old(self).abs().pending.last()
                && final(self).abs().pending == old(self).abs().pending.drop_last() && has_dir(
                old(self).table@,
                r->0@,
            ),
    {
        let r = self.pending.pop();
        proof {
            if r is Some {
                assert(self.abs().pending =~= old(self).abs().pending.drop_last());
                assert(old(self).abs().pending.last() == old(self).abs().pending[old(
                    self,
                ).pending@.len() - 1]);
            } else {
                assert(self.abs().pending =~= old(self).abs().pending);
                assert(self.abs() =~= old(self).abs());
            }
        }
        r
    }

    /// Folds one directory listing into the scan: exactly
    /// [`apply_children`] of the children in order. Each child, while the
    /// budget lasts, is charged, recorded under `parent` (a known path is
    /// a silent no-op), and queued if it is a directory; the child that
    /// finds the budget exhausted trips the ceiling, which records nothing
    /// further and abandons every pending directory.
    #[verifier::loop_isolation(false)]
    pub fn record_listing(&mut self, parent: &String, children: Vec<Child>)
        requires
            old(self).wf(),
            has_dir(old(self).table@, parent@),
        ensures
            final(self).wf(),
            final(self).abs() == apply_children(
                old(self).abs(),
                parent@,
                children@.map_values(|c: Child| c@),
            ),
    {
        let ghost st0 = self.abs();
        let ghost cs = children@.map_values(|c: Child| c@);
        proof {
            assert(cs.skip(0) =~= cs);
        }
        let n = children.len();
        let mut i: usize = 0;
        while i < n
            invariant
                0 <= i <= n,
                n == children@.len(),
                cs == children@.map_values(|c: Child| c@),
                self.wf(),
                has_dir(self.table@, parent@),
                apply_children(self.abs(), parent@, cs.skip(i as int)) == apply_children(
                    st0,
                    parent@,
                    cs,
                ),
            decreases n - i,
        {
            let ghost pre = self.abs();
            proof {
                assert(cs.skip(i as int).len() > 0);
                assert(cs.skip(i as int)[0] == cs[i as int]);
                assert(cs.skip(i as int).skip(1) =~= cs.skip(i as int + 1));
            }
            let c = &children[i];
            let ok = self.budget.try_charge();
            if !ok {
                self.pending.clear();
                self.tripped = true;
                proof {
                    if pre.tripped {
                        lemma_apply_tripped(pre, parent@, cs.skip(i as int));
                        assert(self.abs() =~= pre);
                    } else {
                        let stepped = step_child(pre, parent@, cs[i as int]);
                        assert(apply_children(pre, parent@, cs.skip(i as int))
                            == apply_children(stepped, parent@, cs.skip(i as int + 1)));
                        assert(self.abs() =~= stepped);
                        lemma_apply_tripped(stepped, parent@, cs.skip(i as int + 1));
                        lemma_step_preserves_wf(pre, parent@, cs[i as int]);
                    }
                }
                return ;
            }
            let e = Entry::new(c.path.clone(), parent.clone(), c.name.clone(), c.kind);
            self.table.insert(e);
            if c.kind == Kind::Dir {
                if self.table.contains_dir(&c.path) {
                    self.pending.push(c.path.clone());
                }
            }
            proof {
                let stepped = step_child(pre, parent@, cs[i as int]);
                assert(c@ == cs[i as int]);
                if c@.kind == Kind::Dir && has_dir(self.table@, c@.path) {
                    assert(self.abs().pending =~= pre.pending.push(c@.path));
                }
                assert(self.abs() =~= stepped);
                lemma_step_preserves_wf(pre, parent@, cs[i as int]);
            }
            i += 1;
        }
        proof {
            assert(cs.skip(n as int) =~= Seq::<ChildModel>::empty());
        }
    }
}

/// Law (parent before child): every row whose `parent_path` is not the
/// sentinel `"root"` is preceded in the table by a directory row whose
/// path equals that `parent_path`.
pub proof fn lemma_parent_before_child(s: &Scanner, i: int)
    requires
        s.wf(),
        0 <= i < s.table@.len(),
        s.table@[i].parent_path != "root"@,
    ensures
        exists|j: int|
            0 <= j < i && (#[trigger] s.table@[j]).path == s.table@[i].parent_path
                && s.table@[j].kind == Kind::Dir,
{
    assert(s.abs().table[i] == s.table@[i]);
}

/// Law (the table is bounded): a well-formed scan never holds more rows
/// than the starting directory plus the ceiling.
pub proof fn lemma_rows_bounded(s: &Scanner)
    requires
        s.wf(),
    ensures
        s.table@.len() <= 1 + SCAN_CEILING,
{
}

} // verus!
