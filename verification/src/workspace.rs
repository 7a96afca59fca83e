//! Long-lived workspace state: the current selection, per-session fold
//! sets, the preview cache, and how batch actions pick their targets.

use vstd::prelude::*;
use crate::records::ChatTurn;
use crate::scan::{ProjectBucket, SessionSummary, SessionSummaryV};
use crate::text::str_eq;
use crate::ui::Action;
use crate::wrap::slice_chars_spec;

verus! {

broadcast use crate::text::lemma_deep_view_len, crate::text::lemma_deep_view_index;

// ---------------------------------------------------------------------------
// The multi-select set of session paths.
// ---------------------------------------------------------------------------

/// The set of session paths marked for a batch action. Paths are kept
/// without duplicates.
pub struct SelectionSet {
    pub paths: Vec<String>,
}

/// No path occurs twice.
pub open spec fn sel_wf(s: Seq<Seq<char>>) -> bool {
    forall|i: int, j: int| 0 <= i < j < s.len() ==> s[i] != s[j]
}

impl SelectionSet {
    /// The selected paths.
    pub open spec fn view_seq(&self) -> Seq<Seq<char>> {
        self.paths.deep_view()
    }

    /// An empty selection.
    pub fn new() -> (r: SelectionSet)
        ensures
            r.view_seq() == Seq::<Seq<char>>::empty(),
            sel_wf(r.view_seq()),
    {
        let r = SelectionSet { paths: Vec::new() };
        proof {
            assert(r.view_seq() =~= Seq::<Seq<char>>::empty());
        }
        r
    }

    /// Whether the path is selected.
    #[verifier::loop_isolation(false)]
    pub fn contains(&self, path: &str) -> (r: bool)
        ensures
            r == self.view_seq().contains(path@),
    {
        let mut i: usize = 0;
        while i < self.paths.len()
            invariant
                0 <= i <= self.paths@.len(),
                forall|j: int| 0 <= j < i ==> self.view_seq()[j] != path@,
            decreases self.paths@.len() - i,
        {
            if str_eq(self.paths[i].as_str(), path) {
                assert(self.view_seq()[i as int] == path@);
                return true;
            }
            i += 1;
        }
        proof {
            if self.view_seq().contains(path@) {
                let w = choose|w: int|
                    0 <= w < self.view_seq().len() && self.view_seq()[w] == path@;
            }
        }
        false
    }

    /// Selects a path (a no-op when it is already selected).
    #[verifier::loop_isolation(false)]
    pub fn insert(&mut self, path: String)
        requires
            sel_wf(old(self).view_seq()),
        ensures
            sel_wf(final(self).view_seq()),
            final(self).view_seq() == if old(self).view_seq().contains(path@) {
                old(self).view_seq()
            } else {
                old(self).view_seq().push(path@)
            },
    {
        if self.contains(path.as_str()) {
            return ;
        }
        let ghost prev = self.paths;
        let ghost pg = path;
        self.paths.push(path);
        proof {
            crate::text::lemma_deep_push(self.paths, prev.deep_view(), pg, prev);
            assert forall|i: int, j: int|
                0 <= i < j < self.view_seq().len() implies self.view_seq()[i]
                != self.view_seq()[j] by {
                if j == self.view_seq().len() - 1 {
                    assert(!prev.deep_view().contains(pg@));
                    assert(prev.deep_view()[i] != pg@);
                }
            }
        }
    }

    /// Deselects a path (a no-op when it is not selected).
    #[verifier::loop_isolation(false)]
    pub fn remove(&mut self, path: &str)
        requires
            sel_wf(old(self).view_seq()),
        ensures
            sel_wf(final(self).view_seq()),
            !final(self).view_seq().contains(path@),
            forall|p: Seq<char>|
                p != path@ ==> (final(self).view_seq().contains(p) == old(
                    self,
                ).view_seq().contains(p)),
            final(self).view_seq().len() == old(self).view_seq().len() - (if old(
                self,
            ).view_seq().contains(path@) {
                1int
            } else {
                0int
            }),
    {
        let ghost orig = self.paths.deep_view();
        let mut i: usize = 0;
        while i < self.paths.len()
            invariant
                0 <= i <= self.paths@.len(),
                self.paths.deep_view() == orig,
                sel_wf(orig),
                forall|j: int| 0 <= j < i ==> orig[j] != path@,
            decreases self.paths@.len() - i,
        {
            if str_eq(self.paths[i].as_str(), path) {
                let ghost prev = self.paths;
                proof {
                    assert(orig[i as int] == path@);
                    assert(orig.contains(path@));
                }
                self.paths.remove(i);
                proof {
                    crate::text::lemma_deep_remove(self.paths, prev, i as int);
                    let nv = self.view_seq();
                    assert forall|ii: int, jj: int|
                        0 <= ii < jj < nv.len() implies nv[ii] != nv[jj] by {
                        if ii < i && jj < i {
                        } else if ii < i {
                            assert(nv[jj] == orig[jj + 1]);
                        } else {
                            assert(nv[ii] == orig[ii + 1]);
                            assert(nv[jj] == orig[jj + 1]);
                        }
                    }
                    assert forall|p: Seq<char>|
                        p != path@ implies (nv.contains(p) == orig.contains(p)) by {
                        if nv.contains(p) {
                            let w = choose|w: int| 0 <= w < nv.len() && nv[w] == p;
                            if w < i {
                                assert(orig[w] == p);
                            } else {
                                assert(orig[w + 1] == p);
                            }
                        }
                        if orig.contains(p) {
                            let w = choose|w: int| 0 <= w < orig.len() && orig[w] == p;
                            if w < i {
                                assert(nv[w] == p);
                            } else if w > i {
                                assert(nv[w - 1] == p);
                            }
                        }
                    }
                    assert forall|jj: int| 0 <= jj < nv.len() implies nv[jj] != path@ by {
                        if jj < i {
                        } else {
                            assert(nv[jj] == orig[jj + 1]);
                            assert(orig[i as int] == path@);
                        }
                    }
                    assert(!nv.contains(path@));
                }
                return ;
            }
            i += 1;
        }
        proof {
            if self.view_seq().contains(path@) {
                let w = choose|w: int|
                    0 <= w < self.view_seq().len() && self.view_seq()[w] == path@;
            }
        }
    }

    /// Toggles a path's selection.
    pub fn toggle(&mut self, path: &str)
        requires
            sel_wf(old(self).view_seq()),
        ensures
            sel_wf(final(self).view_seq()),
            final(self).view_seq().contains(path@) == !old(self).view_seq().contains(path@),
            forall|p: Seq<char>|
                p != path@ ==> (final(self).view_seq().contains(p) == old(
                    self,
                ).view_seq().contains(p)),
    {
        if self.contains(path) {
            self.remove(path);
        } else {
            let owned = String::from_str(path);
            let ghost og = owned;
            self.insert(owned);
            proof {
                assert(self.view_seq().last() == path@);
                assert(self.view_seq().contains(path@));
                assert forall|p: Seq<char>|
                    p != path@ implies (self.view_seq().contains(p) == old(
                    self,
                ).view_seq().contains(p)) by {
                    if self.view_seq().contains(p) {
                        let w = choose|w: int|
                            0 <= w < self.view_seq().len() && self.view_seq()[w] == p;
                        if w < old(self).view_seq().len() {
                            assert(old(self).view_seq()[w] == p);
                        }
                    }
                    if old(self).view_seq().contains(p) {
                        let w = choose|w: int|
                            0 <= w < old(self).view_seq().len() && old(self).view_seq()[w] == p;
                        assert(self.view_seq()[w] == p);
                    }
                }
            }
        }
    }

    /// Empties the selection.
    pub fn clear(&mut self)
        ensures
            final(self).view_seq() == Seq::<Seq<char>>::empty(),
            sel_wf(final(self).view_seq()),
    {
        self.paths.clear();
        proof {
            assert(self.view_seq() =~= Seq::<Seq<char>>::empty());
        }
    }

    /// Drops every selected path that no longer names a session of the
    /// catalog.
    #[verifier::loop_isolation(false)]
    pub fn prune(&mut self, catalog: &Vec<ProjectBucket>)
        requires
            sel_wf(old(self).view_seq()),
        ensures
            sel_wf(final(self).view_seq()),
            final(self).view_seq() == pruned_spec(
                old(self).view_seq(),
                catalog.deep_view(),
                old(self).view_seq().len() as int,
            ),
    {
        let ghost orig = self.paths.deep_view();
        let ghost cat = catalog.deep_view();
        let mut kept: Vec<String> = Vec::new();
        let mut i: usize = 0;
        while i < self.paths.len()
            invariant
                0 <= i <= self.paths@.len(),
                self.paths.deep_view() == orig,
                kept.deep_view() == pruned_spec(orig, cat, i as int),
                cat == catalog.deep_view(),
            decreases self.paths@.len() - i,
        {
            if catalog_contains_path(catalog, self.paths[i].as_str()) {
                let ghost kv = kept;
                let item = self.paths[i].clone();
                let ghost ig = item;
                kept.push(item);
                proof {
                    crate::text::lemma_deep_push(kept, kv.deep_view(), ig, kv);
                }
            }
            i += 1;
        }
        proof {
            lemma_pruned_wf(orig, cat, orig.len() as int);
        }
        self.paths = kept;
    }
}

/// The selected paths that still name a catalog session, in order.
pub open spec fn pruned_spec(
    sel: Seq<Seq<char>>,
    cat: Seq<crate::scan::ProjectBucketV>,
    n: int,
) -> Seq<Seq<char>>
    decreases n,
{
    if n <= 0 {
        Seq::empty()
    } else {
        let prev = pruned_spec(sel, cat, n - 1);
        if catalog_has_path(cat, sel[n - 1]) {
            prev.push(sel[n - 1])
        } else {
            prev
        }
    }
}

/// Pruning keeps paths distinct, and keeps exactly prefix paths that the
/// catalog still holds.
pub proof fn lemma_pruned_wf(sel: Seq<Seq<char>>, cat: Seq<crate::scan::ProjectBucketV>, n: int)
    requires
        sel_wf(sel),
        n <= sel.len(),
    ensures
        sel_wf(pruned_spec(sel, cat, n)),
        forall|p: Seq<char>|
            #[trigger] pruned_spec(sel, cat, n).contains(p) ==> (exists|w: int|
                0 <= w < n && sel[w] == p) && catalog_has_path(cat, p),
    decreases n,
{
    if n > 0 {
        lemma_pruned_wf(sel, cat, n - 1);
        let prev = pruned_spec(sel, cat, n - 1);
        let cur = pruned_spec(sel, cat, n);
        assert forall|p: Seq<char>|
            #[trigger] cur.contains(p) implies (exists|w: int| 0 <= w < n && sel[w] == p)
            && catalog_has_path(cat, p) by {
            let w0 = choose|w0: int| 0 <= w0 < cur.len() && cur[w0] == p;
            if w0 < prev.len() {
                assert(prev[w0] == p);
                assert(prev.contains(p));
            } else {
                assert(p == sel[n - 1]);
            }
        }
        if catalog_has_path(cat, sel[n - 1]) {
            assert forall|i: int, j: int|
                0 <= i < j < cur.len() implies cur[i] != cur[j] by {
                if j == cur.len() - 1 {
                    assert(prev.contains(prev[i]));
                    let w = choose|w: int| 0 <= w < n - 1 && sel[w] == prev[i];
                    assert(sel[w] != sel[n - 1]);
                    assert(cur[i] == prev[i]);
                    assert(cur[j] == sel[n - 1]);
                }
            }
        }
    }
}

/// Some session of the catalog has this path./// Some session of the catalog has this path./// Some session of the catalog has this path.
pub open spec fn catalog_has_path(cat: Seq<crate::scan::ProjectBucketV>, p: Seq<char>) -> bool {
    exists|b: int, k: int|
        0 <= b < cat.len() && 0 <= k < (#[trigger] cat[b]).sessions.len()
            && (#[trigger] cat[b].sessions[k]).path == p
}

/// Whether any session of the catalog has this path.
#[verifier::loop_isolation(false)]
pub fn catalog_contains_path(catalog: &Vec<ProjectBucket>, path: &str) -> (r: bool)
    ensures
        r == catalog_has_path(catalog.deep_view(), path@),
{
    let ghost cat = catalog.deep_view();
    let mut b: usize = 0;
    while b < catalog.len()
        invariant
            0 <= b <= catalog@.len(),
            cat == catalog.deep_view(),
            forall|bb: int, k: int|
                0 <= bb < b && 0 <= k < (#[trigger] cat[bb]).sessions.len()
                    ==> (#[trigger] cat[bb].sessions[k]).path != path@,
        decreases catalog@.len() - b,
    {
        let bucket = &catalog[b];
        let mut k: usize = 0;
        while k < bucket.sessions.len()
            invariant
                0 <= k <= bucket.sessions@.len(),
                0 <= b < catalog@.len(),
                cat == catalog.deep_view(),
                cat[b as int].sessions == bucket.sessions.deep_view(),
                forall|kk: int|
                    0 <= kk < k ==> (#[trigger] cat[b as int].sessions[kk]).path != path@,
            decreases bucket.sessions@.len() - k,
        {
            if str_eq(bucket.sessions[k].path.as_str(), path) {
                proof {
                    assert(cat[b as int].sessions[k as int].path == path@);
                }
                return true;
            }
            k += 1;
        }
        b += 1;
    }
    proof {
        if catalog_has_path(cat, path@) {
            let (bb, kk): (int, int) = choose|bb: int, kk: int|
                0 <= bb < cat.len() && 0 <= kk < (#[trigger] cat[bb]).sessions.len() && (
                #[trigger] cat[bb].sessions[kk]).path == path@;
        }
    }
    false
}

// ---------------------------------------------------------------------------
// Fold state: the collapsed turn indices of one session.
// ---------------------------------------------------------------------------

/// The set of turn indices currently collapsed for one session.
pub struct FoldSet {
    pub indices: Vec<usize>,
}

/// No index occurs twice.
pub open spec fn fold_wf(s: Seq<usize>) -> bool {
    forall|i: int, j: int| 0 <= i < j < s.len() ==> s[i] != s[j]
}

/// Toggling: a folded turn unfolds, an expanded one folds.
pub open spec fn toggle_spec(s: Set<usize>, t: usize) -> Set<usize> {
    if s.contains(t) {
        s.remove(t)
    } else {
        s.insert(t)
    }
}

/// One of the first `k` listed turns is `x`.
pub open spec fn among(turns: Seq<usize>, k: int, x: usize) -> bool {
    exists|j: int| 0 <= j < k && turns[j] == x
}

/// Toggling a turn twice restores the fold set.
pub proof fn lemma_toggle_involutive(s: Set<usize>, t: usize)
    ensures
        toggle_spec(toggle_spec(s, t), t) =~= s,
{
}

impl FoldSet {
    /// The folded turn indices.
    pub open spec fn view_set(&self) -> Set<usize> {
        self.indices@.to_set()
    }

    /// An empty fold set.
    pub fn new() -> (r: FoldSet)
        ensures
            r.view_set() =~= Set::<usize>::empty(),
            fold_wf(r.indices@),
    {
        let r = FoldSet { indices: Vec::new() };
        proof {
            assert(r.indices@.to_set() =~= Set::<usize>::empty());
        }
        r
    }

    /// Whether the turn is folded.
    #[verifier::loop_isolation(false)]
    pub fn contains(&self, t: usize) -> (r: bool)
        ensures
            r == self.view_set().contains(t),
    {
        let mut i: usize = 0;
        while i < self.indices.len()
            invariant
                0 <= i <= self.indices@.len(),
                forall|j: int| 0 <= j < i ==> self.indices@[j] != t,
            decreases self.indices@.len() - i,
        {
            if self.indices[i] == t {
                proof {
                    assert(self.indices@.contains(t));
                }
                return true;
            }
            i += 1;
        }
        proof {
            if self.indices@.to_set().contains(t) {
                let w = choose|w: int| 0 <= w < self.indices@.len() && self.indices@[w] == t;
            }
        }
        false
    }

    /// Folds the turn.
    pub fn insert(&mut self, t: usize)
        requires
            fold_wf(old(self).indices@),
        ensures
            fold_wf(final(self).indices@),
            final(self).view_set() =~= old(self).view_set().insert(t),
    {
        if !self.contains(t) {
            self.indices.push(t);
            proof {
                broadcast use vstd::seq_lib::group_seq_properties;

                assert forall|x: usize|
                    self.indices@.to_set().contains(x) == old(self).indices@.to_set().insert(
                    t,
                ).contains(x) by {
                    if self.indices@.contains(x) {
                        let w = choose|w: int|
                            0 <= w < self.indices@.len() && self.indices@[w] == x;
                        if w < old(self).indices@.len() {
                            assert(old(self).indices@[w] == x);
                        }
                    }
                    if old(self).indices@.contains(x) {
                        let w = choose|w: int|
                            0 <= w < old(self).indices@.len() && old(self).indices@[w] == x;
                        assert(self.indices@[w] == x);
                    }
                    if x == t {
                        assert(self.indices@.last() == t);
                    }
                }
                assert(self.indices@.to_set() =~= old(self).indices@.to_set().insert(t));
                assert forall|i: int, j: int|
                    0 <= i < j < self.indices@.len() implies self.indices@[i]
                    != self.indices@[j] by {
                    if j == self.indices@.len() - 1 {
                        assert(old(self).indices@.contains(old(self).indices@[i]));
                    }
                }
            }
        } else {
            proof {
                broadcast use vstd::seq_lib::group_seq_properties;

                assert(self.indices@.to_set() =~= old(self).indices@.to_set().insert(t));
            }
        }
    }

    /// Unfolds the turn.
    #[verifier::loop_isolation(false)]
    pub fn remove(&mut self, t: usize)
        requires
            fold_wf(old(self).indices@),
        ensures
            fold_wf(final(self).indices@),
            final(self).view_set() =~= old(self).view_set().remove(t),
    {
        let ghost orig = self.indices@;
        let mut i: usize = 0;
        while i < self.indices.len()
            invariant
                0 <= i <= self.indices@.len(),
                self.indices@ == orig,
                fold_wf(orig),
                forall|j: int| 0 <= j < i ==> orig[j] != t,
            decreases self.indices@.len() - i,
        {
            if self.indices[i] == t {
                self.indices.remove(i);
                proof {
                    let nv = self.indices@;
                    assert forall|ii: int, jj: int|
                        0 <= ii < jj < nv.len() implies nv[ii] != nv[jj] by {
                        if ii >= i {
                            assert(nv[ii] == orig[ii + 1]);
                        }
                        if jj >= i {
                            assert(nv[jj] == orig[jj + 1]);
                        }
                    }
                    assert forall|x: usize| true implies nv.to_set().contains(x) == orig.to_set(
                    ).remove(t).contains(x) by {
                        if nv.contains(x) {
                            let w = choose|w: int| 0 <= w < nv.len() && nv[w] == x;
                            if w < i {
                                assert(orig[w] == x);
                            } else {
                                assert(orig[w + 1] == x);
                            }
                            assert(x != t || false) by {
                                if x == t {
                                    if w < i {
                                        assert(orig[w] == t);
                                    } else {
                                        assert(orig[w + 1] == t);
                                        assert(orig[i as int] == t);
                                    }
                                }
                            }
                        }
                        if orig.contains(x) && x != t {
                            let w = choose|w: int| 0 <= w < orig.len() && orig[w] == x;
                            if w < i {
                                assert(nv[w] == x);
                            } else if w > i {
                                assert(nv[w - 1] == x);
                            } else {
                                assert(orig[i as int] == t);
                            }
                        }
                    }
                    assert(nv.to_set() =~= orig.to_set().remove(t));
                }
                return ;
            }
            i += 1;
        }
        proof {
            if orig.to_set().contains(t) {
                let w = choose|w: int| 0 <= w < orig.len() && orig[w] == t;
            }
            assert(self.indices@.to_set() =~= orig.to_set().remove(t));
        }
    }

    /// Toggles the turn's fold.
    pub fn toggle(&mut self, t: usize)
        requires
            fold_wf(old(self).indices@),
        ensures
            fold_wf(final(self).indices@),
            final(self).view_set() =~= toggle_spec(old(self).view_set(), t),
    {
        if self.contains(t) {
            self.remove(t);
        } else {
            self.insert(t);
        }
    }

    /// Whether every listed turn is folded.
    #[verifier::loop_isolation(false)]
    pub fn contains_all(&self, turns: &Vec<usize>) -> (r: bool)
        ensures
            r == (forall|k: int|
                0 <= k < turns@.len() ==> self.view_set().contains(#[trigger] turns@[k])),
    {
        let mut k: usize = 0;
        while k < turns.len()
            invariant
                0 <= k <= turns@.len(),
                forall|j: int| 0 <= j < k ==> self.view_set().contains(#[trigger] turns@[j]),
            decreases turns@.len() - k,
        {
            if !self.contains(turns[k]) {
                return false;
            }
            k += 1;
        }
        true
    }

    /// Folds every listed turn.
    #[verifier::loop_isolation(false)]
    pub fn insert_all(&mut self, turns: &Vec<usize>)
        requires
            fold_wf(old(self).indices@),
        ensures
            fold_wf(final(self).indices@),
            forall|x: usize|
                final(self).view_set().contains(x) == (old(self).view_set().contains(x) || among(
                    turns@,
                    turns@.len() as int,
                    x,
                )),
    {
        let mut k: usize = 0;
        while k < turns.len()
            invariant
                0 <= k <= turns@.len(),
                fold_wf(self.indices@),
                forall|x: usize|
                    self.view_set().contains(x) == (old(self).view_set().contains(x) || among(
                        turns@,
                        k as int,
                        x,
                    )),
            decreases turns@.len() - k,
        {
            self.insert(turns[k]);
            k += 1;
            proof {
                assert forall|x: usize|
                    self.view_set().contains(x) == (old(self).view_set().contains(x) || among(
                    turns@,
                    k as int,
                    x,
                )) by {
                    if among(turns@, k as int, x) {
                        let w = choose|w: int| 0 <= w < k && turns@[w] == x;
                        if w < k - 1 {
                            assert(among(turns@, k - 1, x));
                        }
                    }
                    if among(turns@, k - 1, x) {
                        let w = choose|w: int| 0 <= w < k - 1 && turns@[w] == x;
                        assert(among(turns@, k as int, x));
                    }
                    if x == turns@[k - 1] {
                        assert(among(turns@, k as int, x));
                    }
                }
            }
        }
    }

    /// Unfolds every listed turn.
    #[verifier::loop_isolation(false)]
    pub fn remove_all(&mut self, turns: &Vec<usize>)
        requires
            fold_wf(old(self).indices@),
        ensures
            fold_wf(final(self).indices@),
            forall|x: usize|
                final(self).view_set().contains(x) == (old(self).view_set().contains(x) && !among(
                    turns@,
                    turns@.len() as int,
                    x,
                )),
    {
        let mut k: usize = 0;
        while k < turns.len()
            invariant
                0 <= k <= turns@.len(),
                fold_wf(self.indices@),
                forall|x: usize|
                    self.view_set().contains(x) == (old(self).view_set().contains(x) && !among(
                        turns@,
                        k as int,
                        x,
                    )),
            decreases turns@.len() - k,
        {
            self.remove(turns[k]);
            k += 1;
            proof {
                assert forall|x: usize|
                    self.view_set().contains(x) == (old(self).view_set().contains(x) && !among(
                    turns@,
                    k as int,
                    x,
                )) by {
                    if among(turns@, k as int, x) {
                        let w = choose|w: int| 0 <= w < k && turns@[w] == x;
                        if w < k - 1 {
                            assert(among(turns@, k - 1, x));
                        }
                    }
                    if among(turns@, k - 1, x) {
                        let w = choose|w: int| 0 <= w < k - 1 && turns@[w] == x;
                        assert(among(turns@, k as int, x));
                    }
                    if x == turns@[k - 1] {
                        assert(among(turns@, k as int, x));
                    }
                }
            }
        }
    }

    /// Collapses every listed turn, or expands them all when every one of
    /// them is already collapsed.
    pub fn toggle_all(&mut self, turns: &Vec<usize>)
        requires
            fold_wf(old(self).indices@),
        ensures
            fold_wf(final(self).indices@),
            (forall|k: int|
                0 <= k < turns@.len() ==> old(self).view_set().contains(#[trigger] turns@[k]))
                ==> forall|x: usize|
                final(self).view_set().contains(x) == (old(self).view_set().contains(x) && !among(
                    turns@,
                    turns@.len() as int,
                    x,
                )),
            !(forall|k: int|
                0 <= k < turns@.len() ==> old(self).view_set().contains(#[trigger] turns@[k]))
                ==> forall|x: usize|
                final(self).view_set().contains(x) == (old(self).view_set().contains(x) || among(
                    turns@,
                    turns@.len() as int,
                    x,
                )),
    {
        if self.contains_all(turns) {
            self.remove_all(turns);
        } else {
            self.insert_all(turns);
        }
    }
}

// ---------------------------------------------------------------------------
// Project-wide selection operations.
// ---------------------------------------------------------------------------

/// The selection after inserting the first `n` session paths of a project.
pub open spec fn select_all_state(
    sel: Seq<Seq<char>>,
    sessions: Seq<SessionSummaryV>,
    n: int,
) -> Seq<Seq<char>>
    decreases n,
{
    if n <= 0 {
        sel
    } else {
        let prev = select_all_state(sel, sessions, n - 1);
        if prev.contains(sessions[n - 1].path) {
            prev
        } else {
            prev.push(sessions[n - 1].path)
        }
    }
}

/// Selects every session of the current project.
#[verifier::loop_isolation(false)]
pub fn select_all_in_project(sel: &mut SelectionSet, project: &ProjectBucket)
    requires
        sel_wf(old(sel).view_seq()),
    ensures
        sel_wf(final(sel).view_seq()),
        final(sel).view_seq() == select_all_state(
            old(sel).view_seq(),
            project@.sessions,
            project@.sessions.len() as int,
        ),
{
    let mut k: usize = 0;
    while k < project.sessions.len()
        invariant
            0 <= k <= project.sessions@.len(),
            project@.sessions == project.sessions.deep_view(),
            sel_wf(sel.view_seq()),
            sel.view_seq() == select_all_state(old(sel).view_seq(), project@.sessions, k as int),
        decreases project.sessions@.len() - k,
    {
        sel.insert(project.sessions[k].path.clone());
        k += 1;
    }
}

/// Toggles every session of the current project: selected sessions drop out,
/// unselected ones come in.
#[verifier::loop_isolation(false)]
pub fn invert_in_project(sel: &mut SelectionSet, project: &ProjectBucket)
    requires
        sel_wf(old(sel).view_seq()),
    ensures
        sel_wf(final(sel).view_seq()),
        project_paths_distinct(project@.sessions) ==> forall|p: Seq<char>|
            #[trigger] final(sel).view_seq().contains(p) == if project_has_path(
                project@.sessions,
                p,
            ) {
                !old(sel).view_seq().contains(p)
            } else {
                old(sel).view_seq().contains(p)
            },
{
    let ghost sv = project@.sessions;
    let mut k: usize = 0;
    while k < project.sessions.len()
        invariant
            0 <= k <= project.sessions@.len(),
            sv == project.sessions.deep_view(),
            sel_wf(sel.view_seq()),
            project_paths_distinct(sv) ==> forall|p: Seq<char>|
                #[trigger] sel.view_seq().contains(p) == if exists|j: int|
                    0 <= j < k && (#[trigger] sv[j]).path == p {
                    !old(sel).view_seq().contains(p)
                } else {
                    old(sel).view_seq().contains(p)
                },
        decreases project.sessions@.len() - k,
    {
        sel.toggle(project.sessions[k].path.as_str());
        k += 1;
        proof {
            if project_paths_distinct(sv) {
                assert forall|p: Seq<char>|
                    #[trigger] sel.view_seq().contains(p) == if exists|j: int|
                        0 <= j < k && (#[trigger] sv[j]).path == p {
                        !old(sel).view_seq().contains(p)
                    } else {
                        old(sel).view_seq().contains(p)
                    } by {
                    if p == sv[k - 1].path {
                        assert(sv[k - 1].path == p);
                        if exists|j: int| 0 <= j < k - 1 && (#[trigger] sv[j]).path == p {
                            let j = choose|j: int| 0 <= j < k - 1 && (#[trigger] sv[j]).path == p;
                            assert(sv[j].path == sv[k - 1].path);
                            assert(false);
                        }
                    } else {
                        if exists|j: int| 0 <= j < k && (#[trigger] sv[j]).path == p {
                            let j = choose|j: int| 0 <= j < k && (#[trigger] sv[j]).path == p;
                            assert(j < k - 1);
                            assert(exists|j2: int| 0 <= j2 < k - 1 && (#[trigger] sv[j2]).path == p);
                        }
                        if exists|j: int| 0 <= j < k - 1 && (#[trigger] sv[j]).path == p {
                            let j = choose|j: int| 0 <= j < k - 1 && (#[trigger] sv[j]).path == p;
                            assert(exists|j2: int| 0 <= j2 < k && (#[trigger] sv[j2]).path == p);
                        }
                    }
                }
            }
        }
    }
}

/// No two sessions of the project share a path.
pub open spec fn project_paths_distinct(sessions: Seq<SessionSummaryV>) -> bool {
    forall|i: int, j: int|
        0 <= i < j < sessions.len() ==> (#[trigger] sessions[i]).path != (
        #[trigger] sessions[j]).path
}

/// Some session of the project has this path.
pub open spec fn project_has_path(sessions: Seq<SessionSummaryV>, p: Seq<char>) -> bool {
    exists|j: int| 0 <= j < sessions.len() && (#[trigger] sessions[j]).path == p
}

// ---------------------------------------------------------------------------
// Action targets.
// ---------------------------------------------------------------------------

/// The sessions of the current project that are selected, in project order.
pub open spec fn selected_in_project(
    sessions: Seq<SessionSummaryV>,
    selected: Seq<Seq<char>>,
    n: int,
) -> Seq<SessionSummaryV>
    decreases n,
{
    if n <= 0 {
        Seq::empty()
    } else {
        let prev = selected_in_project(sessions, selected, n - 1);
        if selected.contains(sessions[n - 1].path) {
            prev.push(sessions[n - 1])
        } else {
            prev
        }
    }
}

/// The sessions a batch action applies to: for project actions every session
/// of the current project; otherwise the selected sessions of the current
/// project, or the focused session when nothing is selected.
pub open spec fn action_targets_spec(
    sessions: Seq<SessionSummaryV>,
    selected: Seq<Seq<char>>,
    session_idx: int,
    action: Action,
) -> Seq<SessionSummaryV> {
    if action == Action::ProjectRename || action == Action::ProjectCopy {
        sessions
    } else {
        let sel = selected_in_project(sessions, selected, sessions.len() as int);
        if sel.len() > 0 {
            sel
        } else if 0 <= session_idx < sessions.len() {
            seq![sessions[session_idx]]
        } else {
            Seq::empty()
        }
    }
}

/// Picks the targets of a batch action from the current project.
#[verifier::loop_isolation(false)]
pub fn action_targets(
    project: &ProjectBucket,
    selected: &SelectionSet,
    session_idx: usize,
    action: Action,
) -> (r: Vec<SessionSummary>)
    ensures
        r.deep_view() == action_targets_spec(
            project@.sessions,
            selected.view_seq(),
            session_idx as int,
            action,
        ),
{
    let ghost sv = project@.sessions;
    if action == Action::ProjectRename || action == Action::ProjectCopy {
        let b = crate::search::duplicate_bucket(project);
        proof {
            assert(b.sessions.deep_view() == sv);
        }
        return b.sessions;
    }
    let mut sel: Vec<SessionSummary> = Vec::new();
    let mut k: usize = 0;
    while k < project.sessions.len()
        invariant
            0 <= k <= project.sessions@.len(),
            sv == project@.sessions,
            sv == project.sessions.deep_view(),
            sel.deep_view() == selected_in_project(sv, selected.view_seq(), k as int),
        decreases project.sessions@.len() - k,
    {
        if selected.contains(project.sessions[k].path.as_str()) {
            let dup = project.sessions[k].duplicate();
            let ghost dg = dup;
            let ghost prev = sel;
            sel.push(dup);
            proof {
                crate::text::lemma_deep_push(sel, prev.deep_view(), dg, prev);
            }
        }
        k += 1;
    }
    if sel.len() > 0 {
        return sel;
    }
    let mut out: Vec<SessionSummary> = Vec::new();
    if session_idx < project.sessions.len() {
        out.push(project.sessions[session_idx].duplicate());
        proof {
            assert(out.deep_view() =~= seq![sv[session_idx as int]]);
        }
    } else {
        proof {
            assert(out.deep_view() =~= Seq::<SessionSummaryV>::empty());
        }
    }
    out
}

// ---------------------------------------------------------------------------
// Preview cache and text selection.
// ---------------------------------------------------------------------------

/// The memoized parse of one session file.
pub struct CachedPreviewSource {
    /// The file's modification time when it was parsed, in nanoseconds.
    pub mtime: u64,
    /// The extracted chat turns.
    pub turns: Vec<ChatTurn>,
    /// The per-line event summaries.
    pub events: Vec<String>,
}

/// Whether a cached parse must be refreshed: there is none, or the live file
/// is strictly newer.
pub fn cache_is_stale(cached_mtime: Option<u64>, live_mtime: u64) -> (r: bool)
    ensures
        r == match cached_mtime {
            Some(m) => m < live_mtime,
            None => true,
        },
{
    match cached_mtime {
        Some(m) => m < live_mtime,
        None => true,
    }
}

/// Clamps a (row, column) position to the rendered lines: the row to the
/// last line, the column to the line's last character.
pub open spec fn clamp_pos_spec(lines: Seq<Seq<char>>, row: int, col: int) -> (int, int) {
    if lines.len() == 0 {
        (0, 0)
    } else {
        let r = if row < lines.len() {
            row
        } else {
            lines.len() - 1
        };
        let n = lines[r].len() as int;
        let c = if n == 0 {
            0
        } else if col < n {
            col
        } else {
            n - 1
        };
        (r, c)
    }
}

/// Clamps a selection position to the rendered lines.
pub fn clamp_preview_pos(lines: &Vec<String>, row: usize, col: usize) -> (r: (usize, usize))
    ensures
        (r.0 as int, r.1 as int) == clamp_pos_spec(lines.deep_view(), row as int, col as int),
{
    if lines.len() == 0 {
        return (0, 0);
    }
    let r = if row < lines.len() {
        row
    } else {
        lines.len() - 1
    };
    let n = lines[r].as_str().unicode_len();
    let c = if n == 0 {
        0
    } else if col < n {
        col
    } else {
        n - 1
    };
    (r, c)
}

/// The text between two clamped character positions, rows joined by
/// newlines.
pub open spec fn selected_text_spec(
    lines: Seq<Seq<char>>,
    start: (int, int),
    end: (int, int),
) -> Seq<char> {
    let a = clamp_pos_spec(lines, start.0, start.1);
    let b = clamp_pos_spec(lines, end.0, end.1);
    let beg = if a.0 < b.0 || (a.0 == b.0 && a.1 <= b.1) {
        a
    } else {
        b
    };
    let fin = if a.0 < b.0 || (a.0 == b.0 && a.1 <= b.1) {
        b
    } else {
        a
    };
    if beg.0 == fin.0 {
        slice_chars_spec(lines[beg.0], beg.1, fin.1 + 1)
    } else {
        middle_rows(lines, beg, fin, fin.0)
    }
}

/// The selected text down to row `r`: the first row from its start column,
/// whole middle rows, then the last row up to its end column.
pub open spec fn middle_rows(
    lines: Seq<Seq<char>>,
    beg: (int, int),
    fin: (int, int),
    r: int,
) -> Seq<char>
    decreases r - beg.0,
{
    if r <= beg.0 {
        slice_chars_spec(lines[beg.0], beg.1, lines[beg.0].len() as int)
    } else if r < fin.0 {
        middle_rows(lines, beg, fin, r - 1) + seq!['\n'] + lines[r]
    } else {
        middle_rows(lines, beg, fin, r - 1) + seq!['\n'] + slice_chars_spec(
            lines[fin.0],
            0,
            fin.1 + 1,
        )
    }
}

/// Extracts the plain text between two (row, column) character positions of
/// the rendered preview, clamped to the actual lines; rows are joined with
/// newlines. Nothing when no lines are rendered.
#[verifier::loop_isolation(false)]
pub fn preview_selected_text(
    lines: &Vec<String>,
    start: (usize, usize),
    end: (usize, usize),
) -> (r: Option<String>)
    ensures
        lines@.len() == 0 ==> r is None,
        lines@.len() > 0 ==> match r {
            Some(t) => t@ == selected_text_spec(
                lines.deep_view(),
                (start.0 as int, start.1 as int),
                (end.0 as int, end.1 as int),
            ),
            None => false,
        },
{
    proof {
        reveal_strlit("\n");
        assert("\n"@ =~= seq!['\n']);
    }
    if lines.len() == 0 {
        return None;
    }
    let a = clamp_preview_pos(lines, start.0, start.1);
    let b = clamp_preview_pos(lines, end.0, end.1);
    let (beg, fin) = if a.0 < b.0 || (a.0 == b.0 && a.1 <= b.1) {
        (a, b)
    } else {
        (b, a)
    };
    let ghost lv = lines.deep_view();
    if beg.0 == fin.0 {
        let line = &lines[beg.0];
        let llen = line.as_str().unicode_len();
        proof {
            assert(fin.1 < llen || (llen == 0 && fin.1 == 0));
        }
        let t = crate::wrap::slice_chars(line.as_str(), beg.1, fin.1 + 1);
        return Some(t);
    }
    let first = &lines[beg.0];
    let fl = first.as_str().unicode_len();
    let mut out = crate::wrap::slice_chars(first.as_str(), beg.1, fl);
    proof {
        assert(out@ == middle_rows(lv, (beg.0 as int, beg.1 as int), (fin.0 as int, fin.1 as int), beg.0 as int));
    }
    let mut row = beg.0 + 1;
    while row < fin.0
        invariant
            beg.0 < row <= fin.0 < lines@.len(),
            lv == lines.deep_view(),
            "\n"@ == seq!['\n'],
            out@ == middle_rows(
                lv,
                (beg.0 as int, beg.1 as int),
                (fin.0 as int, fin.1 as int),
                row - 1,
            ),
        decreases fin.0 - row,
    {
        out.append("\n");
        out.append(lines[row].as_str());
        row += 1;
        proof {
            assert(out@ =~= middle_rows(
                lv,
                (beg.0 as int, beg.1 as int),
                (fin.0 as int, fin.1 as int),
                row - 1,
            ));
        }
    }
    out.append("\n");
    let last = &lines[fin.0];
    let llen = last.as_str().unicode_len();
    proof {
        assert(fin.1 < llen || (llen == 0 && fin.1 == 0));
    }
    let t = crate::wrap::slice_chars(last.as_str(), 0, fin.1 + 1);
    out.append(t.as_str());
    proof {
        assert(out@ =~= middle_rows(
            lv,
            (beg.0 as int, beg.1 as int),
            (fin.0 as int, fin.1 as int),
            fin.0 as int,
        ));
    }
    Some(out)
}

} // verus!
