//! A disjoint-set forest over dense integer ids, with deletion.
//!
//! Each slot of the parent table holds `Some(parent)` for a live element or
//! `None` for a deleted one; the root of a set is the element whose parent is
//! itself. Deletion keeps ids stable: the slot is tombstoned, a deleted root's
//! children are adopted by the first surviving child, and the children of a
//! deleted inner element are re-parented to its former parent.

use vstd::prelude::*;

verus! {

/// A slot out of range or deleted is not live.
pub open spec fn slot_live(s: Seq<Option<usize>>, i: int) -> bool {
    0 <= i < s.len() && s[i] is Some
}

/// A root is a live element that is its own parent.
pub open spec fn slot_root(s: Seq<Option<usize>>, i: int) -> bool {
    slot_live(s, i) && s[i]->0 as int == i
}

/// Walk parent pointers for at most `fuel` steps; `Some(root)` if a root was
/// reached, `None` if the walk left the live slots or ran out of fuel.
pub open spec fn root_from(s: Seq<Option<usize>>, i: int, fuel: nat) -> Option<usize>
    decreases fuel,
{
    if !slot_live(s, i) {
        None
    } else if s[i]->0 as int == i {
        Some(s[i]->0)
    } else if fuel == 0 {
        None
    } else {
        root_from(s, s[i]->0 as int, (fuel - 1) as nat)
    }
}

/// The forest is acyclic: every live non-root element has a live parent that
/// is strictly shallower according to the depth witness `d`.
pub open spec fn parents_acyclic(s: Seq<Option<usize>>, d: Map<int, nat>) -> bool {
    forall|i: int|
        #![trigger s[i]]
        slot_live(s, i) && !slot_root(s, i) ==> slot_live(s, s[i]->0 as int) && d[s[i]->0 as int]
            < d[i]
}

/// The root an element resolves to, if any, under the depth witness `d`.
pub open spec fn root_of_raw(s: Seq<Option<usize>>, d: Map<int, nat>, i: int) -> Option<usize> {
    root_from(s, i, (d[i] + 1) as nat)
}

/// Number of live (non-deleted) slots.
pub open spec fn live_count(s: Seq<Option<usize>>) -> nat
    decreases s.len(),
{
    if s.len() == 0 {
        0
    } else {
        live_count(s.drop_last()) + if s.last() is Some {
            1nat
        } else {
            0nat
        }
    }
}

/// Index of the first element other than `q` whose parent is `q`, scanning
/// from position `k`; `s.len()` if there is none.
pub open spec fn first_child_from(s: Seq<Option<usize>>, q: int, k: int) -> int
    decreases s.len() - k,
{
    if k < 0 || k >= s.len() {
        s.len() as int
    } else if k != q && s[k] == Some(q as usize) {
        k
    } else {
        first_child_from(s, q, k + 1)
    }
}

/// Index of the first element other than `q` whose parent is `q`.
pub open spec fn first_child(s: Seq<Option<usize>>, q: int) -> int {
    first_child_from(s, q, 0)
}

/// The slot `j != q` after deleting `q` from the table `s`: a child of a
/// deleted root is adopted by the first child, a child of a deleted inner
/// element is re-parented to the deleted element's former parent, and every
/// other slot is unchanged.
pub open spec fn delete_slot(s: Seq<Option<usize>>, q: int, j: int) -> Option<usize> {
    if s[j] == Some(q as usize) {
        if s[q] == Some(q as usize) {
            Some(first_child(s, q) as usize)
        } else {
            s[q]
        }
    } else {
        s[j]
    }
}

/// The parent table after one-pass path halving starting at `i`, for at
/// most `fuel` steps: each traversed element's parent is rewritten to its
/// current grandparent, and the walk continues at that grandparent until a
/// root (or a dead slot) is reached. Untraversed slots are unchanged.
pub open spec fn halved(s: Seq<Option<usize>>, i: int, fuel: nat) -> Seq<Option<usize>>
    decreases fuel,
{
    if !slot_live(s, i) || slot_root(s, i) {
        s
    } else if fuel == 0 || !slot_live(s, s[i]->0 as int) {
        s
    } else {
        let p = s[i]->0 as int;
        let g = s[p]->0;
        halved(s.update(i, Some(g)), g as int, (fuel - 1) as nat)
    }
}

/// The halving walk starting at `i` reaches a root or a dead slot within
/// `fuel` steps.
pub open spec fn halve_done(s: Seq<Option<usize>>, i: int, fuel: nat) -> bool
    decreases fuel,
{
    if !slot_live(s, i) || slot_root(s, i) {
        true
    } else if fuel == 0 || !slot_live(s, s[i]->0 as int) {
        false
    } else {
        let p = s[i]->0 as int;
        let g = s[p]->0;
        halve_done(s.update(i, Some(g)), g as int, (fuel - 1) as nat)
    }
}

/// Once the halving walk has finished, extra fuel changes nothing.
pub proof fn lemma_halve_done_mono(s: Seq<Option<usize>>, i: int, f1: nat, f2: nat)
    requires
        halve_done(s, i, f1),
        f1 <= f2,
    ensures
        halve_done(s, i, f2),
        halved(s, i, f2) == halved(s, i, f1),
    decreases f1,
{
    if !(!slot_live(s, i) || slot_root(s, i)) {
        let p = s[i]->0 as int;
        let g = s[p]->0;
        lemma_halve_done_mono(s.update(i, Some(g)), g as int, (f1 - 1) as nat, (f2 - 1) as nat);
    }
}

/// Any two sufficient fuels agree on the halved table.
pub proof fn lemma_halved_agree(s: Seq<Option<usize>>, i: int, f1: nat, f2: nat)
    requires
        halve_done(s, i, f1),
        halve_done(s, i, f2),
    ensures
        halved(s, i, f1) == halved(s, i, f2),
{
    if f1 <= f2 {
        lemma_halve_done_mono(s, i, f1, f2);
    } else {
        lemma_halve_done_mono(s, i, f2, f1);
    }
}

/// A mutable disjoint-set forest keyed by dense integer ids, supporting
/// `make_set`, `find`, `find_mut` (path halving), `union`, `size` and
/// `delete`. Ids of surviving elements are never renumbered.
pub struct UnionFind {
    /// Parent table; `None` marks a deleted slot.
    pub parents: Vec<Option<usize>>,
    /// Ghost witness of acyclicity: strictly decreasing toward each root.
    pub depth: Ghost<Map<int, nat>>,
}

impl View for UnionFind {
    type V = Seq<Option<usize>>;

    open spec fn view(&self) -> Seq<Option<usize>> {
        self.parents@
    }
}

proof fn lemma_root_from_mono(s: Seq<Option<usize>>, i: int, f1: nat, f2: nat)
    requires
        f1 <= f2,
        root_from(s, i, f1) is Some,
    ensures
        root_from(s, i, f2) == root_from(s, i, f1),
    decreases f1,
{
    if slot_live(s, i) && s[i]->0 as int != i {
        lemma_root_from_mono(s, s[i]->0 as int, (f1 - 1) as nat, (f2 - 1) as nat);
    }
}

proof fn lemma_wf_root_exists(s: Seq<Option<usize>>, d: Map<int, nat>, i: int)
    requires
        parents_acyclic(s, d),
        slot_live(s, i),
    ensures
        root_of_raw(s, d, i) is Some,
        slot_root(s, root_of_raw(s, d, i)->0 as int),
    decreases d[i],
{
    if !slot_root(s, i) {
        let p = s[i]->0 as int;
        lemma_wf_root_exists(s, d, p);
        lemma_root_from_mono(s, p, (d[p] + 1) as nat, d[i] as nat);
    }
}

/// A live non-root element resolves exactly where its parent does.
proof fn lemma_step(s: Seq<Option<usize>>, d: Map<int, nat>, i: int)
    requires
        parents_acyclic(s, d),
        slot_live(s, i),
        !slot_root(s, i),
    ensures
        root_of_raw(s, d, i) == root_of_raw(s, d, s[i]->0 as int),
{
    let p = s[i]->0 as int;
    lemma_wf_root_exists(s, d, p);
    lemma_root_from_mono(s, p, (d[p] + 1) as nat, d[i] as nat);
}

/// Re-pointing one live non-root element at a strictly shallower live element
/// keeps the forest acyclic.
proof fn lemma_reparent_wf(s: Seq<Option<usize>>, d: Map<int, nat>, c: int, g: usize)
    requires
        parents_acyclic(s, d),
        slot_live(s, c),
        !slot_root(s, c),
        slot_live(s, g as int),
        d[g as int] < d[c],
    ensures
        parents_acyclic(s.update(c, Some(g)), d),
{
    let s2 = s.update(c, Some(g));
    assert forall|i: int|
        slot_live(s2, i) && !slot_root(s2, i) implies slot_live(s2, s2[i]->0 as int) && d[s2[i]->0
        as int] < d[i] by {
        if i != c {
            assert(s2[i] == s[i]);
            let p = s[i]->0 as int;
            assert(slot_live(s, p) && d[p] < d[i]);
            assert(slot_live(s2, p));
        }
    }
}

/// Re-pointing an element at a member of its own set moves nobody to a
/// different root.
proof fn lemma_reparent_root(s: Seq<Option<usize>>, d: Map<int, nat>, c: int, g: usize, j: int)
    requires
        parents_acyclic(s, d),
        parents_acyclic(s.update(c, Some(g)), d),
        slot_live(s, c),
        !slot_root(s, c),
        slot_live(s, g as int),
        d[g as int] < d[c],
        root_of_raw(s, d, g as int) == root_of_raw(s, d, c),
    ensures
        root_of_raw(s.update(c, Some(g)), d, j) == root_of_raw(s, d, j),
    decreases d[j],
{
    let s2 = s.update(c, Some(g));
    if !slot_live(s, j) {
        assert(!slot_live(s2, j));
    } else if j == c {
        assert(s2[c] == Some(g));
        assert(g as int != c);
        lemma_step(s2, d, c);
        lemma_reparent_root(s, d, c, g, g as int);
    } else if slot_root(s, j) {
        assert(slot_root(s2, j));
    } else {
        let p = s[j]->0 as int;
        assert(s2[j] == s[j]);
        lemma_step(s, d, j);
        lemma_step(s2, d, j);
        lemma_reparent_root(s, d, c, g, p);
    }
}

proof fn lemma_fcf_scan(s: Seq<Option<usize>>, q: int, k: int, j: int)
    requires
        0 <= k <= j < s.len(),
        j != q,
        s[j] == Some(q as usize),
        forall|m: int| k <= m < j ==> !(m != q && s[m] == Some(q as usize)),
    ensures
        first_child_from(s, q, k) == j,
    decreases j - k,
{
    if k < j {
        lemma_fcf_scan(s, q, k + 1, j);
    }
}

/// `first_child_from` either runs off the end or lands on a child of `q`.
proof fn lemma_fcf_props(s: Seq<Option<usize>>, q: int, k: int)
    requires
        0 <= k <= s.len(),
    ensures
        ({
            let fc = first_child_from(s, q, k);
            k <= fc <= s.len() && (fc < s.len() ==> (fc != q && s[fc] == Some(q as usize)))
        }),
    decreases s.len() - k,
{
    if k < s.len() && !(k != q && s[k] == Some(q as usize)) {
        lemma_fcf_props(s, q, k + 1);
    }
}

proof fn lemma_fcf_found(s0: Seq<Option<usize>>, q: int, k: int)
    requires
        0 <= k <= s0.len(),
        exists|m: int| k <= m < s0.len() && m != q && s0[m] == Some(q as usize),
    ensures
        ({
            let fc = first_child_from(s0, q, k);
            k <= fc < s0.len() && fc != q && s0[fc] == Some(q as usize)
        }),
    decreases s0.len() - k,
{
    if !(k != q && s0[k] == Some(q as usize)) {
        let m = choose|m: int| k <= m < s0.len() && m != q && s0[m] == Some(q as usize);
        assert(m > k);
        assert(k + 1 <= m < s0.len() && m != q && s0[m] == Some(q as usize));
        lemma_fcf_found(s0, q, k + 1);
    }
}

/// After deleting the root `q`, the table described by `delete_slot` is
/// acyclic under the depth witness that makes the adopting first child a
/// fresh root.
proof fn lemma_delete_root_wf(
    s0: Seq<Option<usize>>,
    d0: Map<int, nat>,
    q: int,
    s2: Seq<Option<usize>>,
)
    requires
        parents_acyclic(s0, d0),
        s0.len() <= usize::MAX,
        0 <= q < s0.len(),
        s0[q] == Some(q as usize),
        s2.len() == s0.len(),
        s2[q] is None,
        forall|j: int| #![trigger s2[j]]
            0 <= j < s0.len() && j != q ==> s2[j] == delete_slot(s0, q, j),
    ensures
        parents_acyclic(s2, d0.insert(first_child(s0, q), 0)),
        forall|j: int| slot_live(s2, j) <==> (slot_live(s0, j) && j != q),
{
    let fc = first_child(s0, q);
    let d2 = d0.insert(fc, 0);
    lemma_fcf_props(s0, q, 0);
    assert forall|j: int| slot_live(s2, j) <==> (slot_live(s0, j) && j != q) by {
        if 0 <= j < s0.len() && j != q {
            assert(s2[j] == delete_slot(s0, q, j));
        }
    }
    assert forall|i: int|
        slot_live(s2, i) && !slot_root(s2, i) implies slot_live(s2, s2[i]->0 as int) && d2[s2[i]->0
        as int] < d2[i] by {
        assert(i != q);
        assert(s2[i] == delete_slot(s0, q, i));
        if s0[i] == Some(q as usize) {
            // a child of the deleted root, adopted by the first child
            assert(0 <= i < s0.len() && i != q && s0[i] == Some(q as usize));
            assert(exists|m: int| 0 <= m < s0.len() && m != q && s0[m] == Some(q as usize));
            lemma_fcf_found(s0, q, 0);
            assert(0 <= fc < s0.len() && fc != q && s0[fc] == Some(q as usize));
            assert(s2[i] == Some(fc as usize));
            assert(s2[fc] == delete_slot(s0, q, fc));
            assert(s2[fc] == Some(fc as usize));
            assert(slot_live(s2, fc));
            if i == fc {
                assert(s2[i]->0 as int == i);
                assert(slot_root(s2, i));
            }
            assert(i != fc);
            assert(d0[q] < d0[i]);
            assert(d2[i] == d0[i]);
            assert(d2[fc] == 0);
        } else {
            let p = s0[i]->0 as int;
            assert(!slot_root(s0, i));
            assert(slot_live(s0, p) && d0[p] < d0[i]);
            assert(p != q);
            assert(s2[p] == delete_slot(s0, q, p));
            assert(slot_live(s2, p));
            assert(d2[p] <= d0[p]);
            if i == fc {
                assert(fc < s0.len() && s0[fc] == Some(q as usize));
            }
            assert(i != fc);
            assert(d2[i] == d0[i]);
        }
    }
}

/// After deleting the non-root `q`, the table described by `delete_slot` is
/// acyclic under the unchanged depth witness.
proof fn lemma_delete_inner_wf(
    s0: Seq<Option<usize>>,
    d0: Map<int, nat>,
    q: int,
    s2: Seq<Option<usize>>,
)
    requires
        parents_acyclic(s0, d0),
        s0.len() <= usize::MAX,
        0 <= q < s0.len(),
        s0[q] != Some(q as usize),
        s2.len() == s0.len(),
        s2[q] is None,
        forall|j: int| #![trigger s2[j]]
            0 <= j < s0.len() && j != q ==> s2[j] == delete_slot(s0, q, j),
    ensures
        parents_acyclic(s2, d0),
        forall|j: int| slot_live(s2, j) <==> (slot_live(s0, j) && j != q),
{
    assert forall|j: int| slot_live(s2, j) <==> (slot_live(s0, j) && j != q) by {
        if 0 <= j < s0.len() && j != q {
            assert(s2[j] == delete_slot(s0, q, j));
            if s0[j] == Some(q as usize) {
                // a live child means q itself was live and not a root
                assert(slot_live(s0, j) && !slot_root(s0, j));
                assert(slot_live(s0, q));
            }
        }
    }
    assert forall|i: int|
        slot_live(s2, i) && !slot_root(s2, i) implies slot_live(s2, s2[i]->0 as int) && d0[s2[i]->0
        as int] < d0[i] by {
        assert(i != q);
        assert(s2[i] == delete_slot(s0, q, i));
        if s0[i] == Some(q as usize) {
            // child of q: re-parented to q's former parent
            assert(slot_live(s0, i) && !slot_root(s0, i));
            assert(slot_live(s0, q) && d0[q] < d0[i]);
            assert(!slot_root(s0, q));
            let p0 = s0[q]->0 as int;
            assert(slot_live(s0, p0) && d0[p0] < d0[q]);
            assert(s2[i] == s0[q]);
            assert(p0 != q);
            // q's parent is not itself a child of q: the depths would clash
            assert(s0[p0] != Some(q as usize));
            assert(s2[p0] == delete_slot(s0, q, p0));
            assert(slot_live(s2, p0));
            assert(d0[p0] < d0[i]);
        } else {
            let p = s0[i]->0 as int;
            assert(slot_live(s0, p) && d0[p] < d0[i]);
            assert(p != q);
            assert(s2[p] == delete_slot(s0, q, p));
            assert(slot_live(s2, p));
        }
    }
}

/// Appending a fresh slot does not change where any existing element
/// resolves.
proof fn lemma_root_push_any(
    s: Seq<Option<usize>>,
    d: Map<int, nat>,
    x: Option<usize>,
    j: int,
    fuel: nat,
)
    requires
        parents_acyclic(s, d),
        0 <= j < s.len(),
    ensures
        root_from(s.push(x), j, fuel) == root_from(s, j, fuel),
    decreases fuel,
{
    let s2 = s.push(x);
    assert(s2[j] == s[j]);
    if slot_live(s, j) && s[j]->0 as int != j && fuel > 0 {
        let p = s[j]->0 as int;
        assert(slot_live(s, p));
        lemma_root_push_any(s, d, x, p, (fuel - 1) as nat);
    }
}

proof fn lemma_union_wf(s: Seq<Option<usize>>, d: Map<int, nat>, root1: usize, root2: usize)
    requires
        parents_acyclic(s, d),
        slot_live(s, root1 as int),
        slot_root(s, root2 as int),
        root_of_raw(s, d, root1 as int) != Some(root2),
    ensures
        parents_acyclic(
            s.update(root2 as int, Some(root1)),
            Map::total(
                |k: int|
                    if root_of_raw(s, d, k) == Some(root2) {
                        (d[k] + d[root1 as int] + 1) as nat
                    } else {
                        d[k]
                    },
            ),
        ),
{
    let s2 = s.update(root2 as int, Some(root1));
    let d2 = Map::total(
        |k: int|
            if root_of_raw(s, d, k) == Some(root2) {
                (d[k] + d[root1 as int] + 1) as nat
            } else {
                d[k]
            },
    );
    assert(root_of_raw(s, d, root2 as int) == Some(root2));
    assert(root1 != root2);
    assert forall|i: int|
        slot_live(s2, i) && !slot_root(s2, i) implies slot_live(s2, s2[i]->0 as int) && d2[s2[i]->0
        as int] < d2[i] by {
        if i == root2 as int {
            assert(s2[i] == Some(root1));
            assert(slot_live(s2, root1 as int));
            assert(d2[root1 as int] == d[root1 as int]);
            assert(d2[i] == (d[i] + d[root1 as int] + 1) as nat);
        } else {
            assert(s2[i] == s[i]);
            let p = s[i]->0 as int;
            assert(slot_live(s, p) && d[p] < d[i]);
            assert(slot_live(s2, p));
            lemma_step(s, d, i);
            assert(root_of_raw(s, d, p) == root_of_raw(s, d, i));
        }
    }
}

proof fn lemma_union_root(
    s: Seq<Option<usize>>,
    d: Map<int, nat>,
    root1: usize,
    root2: usize,
    j: int,
)
    requires
        parents_acyclic(s, d),
        slot_live(s, root1 as int),
        slot_root(s, root2 as int),
        root_of_raw(s, d, root1 as int) != Some(root2),
    ensures
        root_of_raw(
            s.update(root2 as int, Some(root1)),
            Map::total(
                |k: int|
                    if root_of_raw(s, d, k) == Some(root2) {
                        (d[k] + d[root1 as int] + 1) as nat
                    } else {
                        d[k]
                    },
            ),
            j,
        ) == (if root_of_raw(s, d, j) == Some(root2) {
            root_of_raw(s, d, root1 as int)
        } else {
            root_of_raw(s, d, j)
        }),
    decreases (if root_of_raw(s, d, j) == Some(root2) {
        (d[j] + d[root1 as int] + 1) as nat
    } else {
        d[j]
    }),
{
    let s2 = s.update(root2 as int, Some(root1));
    let d2 = Map::total(
        |k: int|
            if root_of_raw(s, d, k) == Some(root2) {
                (d[k] + d[root1 as int] + 1) as nat
            } else {
                d[k]
            },
    );
    lemma_union_wf(s, d, root1, root2);
    assert(root1 != root2);
    if !slot_live(s, j) {
        assert(!slot_live(s2, j));
    } else if j == root2 as int {
        assert(root_of_raw(s, d, j) == Some(root2));
        assert(s2[j] == Some(root1));
        assert(slot_live(s2, j) && !slot_root(s2, j));
        lemma_step(s2, d2, j);
        assert(d2[root1 as int] == d[root1 as int]);
        assert(d2[j] == (d[j] + d[root1 as int] + 1) as nat);
        lemma_union_root(s, d, root1, root2, root1 as int);
    } else if slot_root(s, j) {
        assert(slot_root(s2, j));
        assert(root_of_raw(s, d, j) == Some(j as usize));
        assert(root_of_raw(s2, d2, j) == Some(j as usize));
    } else {
        let p = s[j]->0 as int;
        assert(s2[j] == s[j]);
        assert(slot_live(s, p) && d[p] < d[j]);
        lemma_step(s, d, j);
        lemma_step(s2, d2, j);
        lemma_union_root(s, d, root1, root2, p);
    }
}

impl UnionFind {
    /// The forest is well formed: acyclic, with every live chain ending at a
    /// live root.
    pub closed spec fn wf(self) -> bool {
        parents_acyclic(self@, self.depth@)
    }

    /// The element `i` exists and has not been deleted.
    pub open spec fn live(self, i: int) -> bool {
        slot_live(self@, i)
    }

    /// The element `i` is the root of its set.
    pub open spec fn is_root(self, i: int) -> bool {
        slot_root(self@, i)
    }

    /// The root that `i` resolves to, or `None` for a deleted or absent id.
    pub closed spec fn root_of(self, i: int) -> Option<usize> {
        root_of_raw(self@, self.depth@, i)
    }

    /// Every live element of a well-formed forest resolves to a live root,
    /// and that root resolves to itself.
    pub proof fn lemma_live_root(self, i: int)
        requires
            self.wf(),
            self.live(i),
        ensures
            self.root_of(i) is Some,
            self.is_root(self.root_of(i)->0 as int),
            self.live(self.root_of(i)->0 as int),
            self.root_of(self.root_of(i)->0 as int) == self.root_of(i),
    {
        lemma_wf_root_exists(self@, self.depth@, i);
    }

    /// A deleted or absent id resolves to no root at all.
    pub proof fn lemma_dead_no_root(self, i: int)
        requires
            !self.live(i),
        ensures
            self.root_of(i) is None,
    {
    }

    /// A root resolves to itself.
    pub proof fn lemma_root_self(self, i: int)
        requires
            self.is_root(i),
        ensures
            self.root_of(i) == Some(i as usize),
    {
    }

    /// Allocate a fresh singleton set; its id is the previous table length.
    pub fn make_set(&mut self) -> (id: usize)
        requires
            old(self).wf(),
        ensures
            final(self).wf(),
            id == old(self)@.len(),
            final(self)@ == old(self)@.push(Some(id)),
            final(self).is_root(id as int),
            final(self).root_of(id as int) == Some(id),
            forall|j: int|
                0 <= j < old(self)@.len() ==> final(self).root_of(j) == old(self).root_of(j),
    {
        let ghost s = self@;
        let ghost d = self.depth@;
        let id = self.parents.len();
        self.parents.push(Some(id));
        self.depth = Ghost(d.insert(id as int, 0));
        proof {
            let s2 = self@;
            let d2 = self.depth@;
            assert(s2 == s.push(Some(id)));
            assert forall|i: int|
                slot_live(s2, i) && !slot_root(s2, i) implies slot_live(s2, s2[i]->0 as int)
                && d2[s2[i]->0 as int] < d2[i] by {
                assert(i != id as int);
                assert(i < s.len());
                assert(s2[i] == s[i]);
                let p = s[i]->0 as int;
                assert(slot_live(s, p) && d[p] < d[i]);
                assert(s2[p] == s[p]);
                assert(p != id as int);
            }
            assert forall|j: int| 0 <= j < s.len() implies self.root_of(j) == root_of_raw(
                s,
                d,
                j,
            ) by {
                assert(d2[j] == d[j]);
                lemma_root_push_any(s, d, Some(id), j, (d[j] + 1) as nat);
            }
            assert(slot_root(s2, id as int));
        }
        id
    }

    /// Number of live elements.
    pub fn size(&self) -> (n: usize)
        ensures
            n as nat == live_count(self@),
    {
        let mut n: usize = 0;
        let mut i: usize = 0;
        while i < self.parents.len()
            invariant
                i <= self@.len(),
                n as nat == live_count(self@.take(i as int)),
                n <= i,
            decreases self@.len() - i,
        {
            if self.parents[i].is_some() {
                n = n + 1;
            }
            proof {
                assert(self@.take(i + 1).drop_last() =~= self@.take(i as int));
                assert(self@.take(i + 1).last() == self@[i as int]);
            }
            i = i + 1;
        }
        proof {
            assert(self@.take(self@.len() as int) =~= self@);
        }
        n
    }

    /// Follow parent pointers to the root of `id`'s set, without mutation;
    /// `None` if `id` has been deleted.
    pub fn find(&self, id: usize) -> (r: Option<usize>)
        requires
            self.wf(),
            id < self@.len(),
        ensures
            r == self.root_of(id as int),
    {
        if self.parents[id].is_none() {
            return None;
        }
        let mut cur = id;
        loop
            invariant
                self.wf(),
                cur < self@.len(),
                self.live(cur as int),
                self.root_of(cur as int) == self.root_of(id as int),
            decreases self.depth@[cur as int],
        {
            let p = self.parents[cur].unwrap();
            if p == cur {
                return Some(cur);
            }
            proof {
                lemma_step(self@, self.depth@, cur as int);
            }
            cur = p;
        }
    }

    /// Follow parent pointers to the root, halving the path on the way:
    /// every traversed element ends up pointing at its former grandparent,
    /// exactly as `halved` describes; untraversed slots are unchanged. No
    /// element changes set, and no element appears or disappears.
    pub fn find_mut(&mut self, id: usize) -> (r: Option<usize>)
        requires
            old(self).wf(),
            id < old(self)@.len(),
        ensures
            final(self).wf(),
            final(self)@.len() == old(self)@.len(),
            forall|j: int| final(self).live(j) <==> old(self).live(j),
            forall|j: int| #![trigger final(self).root_of(j)]
                final(self).root_of(j) == old(self).root_of(j),
            r == old(self).root_of(id as int),
            exists|f: nat|
                #![trigger halve_done(old(self)@, id as int, f)]
                halve_done(old(self)@, id as int, f) && final(self)@ == halved(
                    old(self)@,
                    id as int,
                    f,
                ),
    {
        if self.parents[id].is_none() {
            proof {
                assert(halve_done(self@, id as int, 0) && self@ == halved(self@, id as int, 0));
            }
            return None;
        }
        let mut cur = id;
        let ghost mut k: nat = 0;
        loop
            invariant
                self.wf(),
                self@.len() == old(self)@.len(),
                self.depth@ == old(self).depth@,
                cur < self@.len(),
                self.live(cur as int),
                forall|j: int| self.live(j) <==> old(self).live(j),
                forall|j: int| #![trigger root_of_raw(self@, self.depth@, j)]
                    root_of_raw(self@, self.depth@, j) == old(self).root_of(j),
                root_of_raw(self@, self.depth@, cur as int) == old(self).root_of(id as int),
                forall|f: nat| #![trigger halved(self@, cur as int, f)]
                    halved(old(self)@, id as int, (k + f) as nat) == halved(
                        self@,
                        cur as int,
                        f,
                    ),
                forall|f: nat| #![trigger halve_done(self@, cur as int, f)]
                    halve_done(old(self)@, id as int, (k + f) as nat) == halve_done(
                        self@,
                        cur as int,
                        f,
                    ),
            decreases self.depth@[cur as int],
        {
            let p = self.parents[cur].unwrap();
            if p == cur {
                proof {
                    assert(slot_root(self@, cur as int));
                    assert(halved(self@, cur as int, 0) == self@);
                    assert(halve_done(self@, cur as int, 0));
                    assert(halved(old(self)@, id as int, k) == self@);
                    assert(halve_done(old(self)@, id as int, k));
                }
                return Some(cur);
            }
            proof {
                assert(slot_live(self@, p as int));
                assert(self.depth@[p as int] < self.depth@[cur as int]);
            }
            let g = self.parents[p].unwrap();
            let ghost s = self@;
            let ghost d = self.depth@;
            proof {
                lemma_step(s, d, cur as int);
                if p != g {
                    assert(!slot_root(s, p as int));
                    lemma_step(s, d, p as int);
                    assert(d[g as int] < d[p as int]);
                }
                assert(d[g as int] < d[cur as int]);
                assert(root_of_raw(s, d, g as int) == root_of_raw(s, d, cur as int));
                lemma_reparent_wf(s, d, cur as int, g);
            }
            self.parents.set(cur, Some(g));
            proof {
                assert(self@ == s.update(cur as int, Some(g)));
                assert forall|j: int| #![trigger root_of_raw(self@, d, j)]
                    root_of_raw(self@, d, j) == root_of_raw(s, d, j) by {
                    lemma_reparent_root(s, d, cur as int, g, j);
                }
                assert forall|j: int| #![trigger root_of_raw(self@, self.depth@, j)]
                    root_of_raw(self@, self.depth@, j) == old(self).root_of(j) by {
                    assert(root_of_raw(self@, d, j) == root_of_raw(s, d, j));
                    assert(root_of_raw(s, d, j) == old(self).root_of(j));
                }
                assert(root_of_raw(self@, self.depth@, g as int) == old(self).root_of(
                    id as int,
                ));
                // one more halving step has been taken
                assert forall|f: nat| #![trigger halved(self@, g as int, f)]
                    halved(old(self)@, id as int, ((k + 1) + f) as nat) == halved(
                    self@,
                    g as int,
                    f,
                ) by {
                    assert(halved(old(self)@, id as int, (k + (f + 1)) as nat) == halved(
                        s,
                        cur as int,
                        (f + 1) as nat,
                    ));
                    assert(halved(s, cur as int, (f + 1) as nat) == halved(
                        s.update(cur as int, Some(g)),
                        g as int,
                        f,
                    ));
                }
                assert forall|f: nat| #![trigger halve_done(self@, g as int, f)]
                    halve_done(old(self)@, id as int, ((k + 1) + f) as nat) == halve_done(
                    self@,
                    g as int,
                    f,
                ) by {
                    assert(halve_done(old(self)@, id as int, (k + (f + 1)) as nat)
                        == halve_done(s, cur as int, (f + 1) as nat));
                    assert(halve_done(s, cur as int, (f + 1) as nat) == halve_done(
                        s.update(cur as int, Some(g)),
                        g as int,
                        f,
                    ));
                }
                k = k + 1;
            }
            cur = g;
        }
    }

    /// Make `root1`'s set absorb the set rooted at `root2` by pointing
    /// `root2` at `root1`. Callers pick the retained element; `root1` need
    /// not itself be a root, but it must not belong to `root2`'s set (that
    /// would close a cycle). Every element that resolved to `root2` now
    /// resolves where `root1` does; everything else is untouched.
    pub fn union(&mut self, root1: usize, root2: usize) -> (r: Option<usize>)
        requires
            old(self).wf(),
            old(self).live(root1 as int),
            old(self).is_root(root2 as int),
            old(self).root_of(root1 as int) != Some(root2),
        ensures
            final(self).wf(),
            r == Some(root1),
            final(self)@ == old(self)@.update(root2 as int, Some(root1)),
            forall|j: int| #![trigger final(self).root_of(j)]
                final(self).root_of(j) == (if old(self).root_of(j) == Some(root2) {
                    old(self).root_of(root1 as int)
                } else {
                    old(self).root_of(j)
                }),
    {
        let ghost s = self@;
        let ghost d = self.depth@;
        self.parents.set(root2, Some(root1));
        let ghost d2 = Map::total(
            |k: int|
                if root_of_raw(s, d, k) == Some(root2) {
                    (d[k] + d[root1 as int] + 1) as nat
                } else {
                    d[k]
                },
        );
        self.depth = Ghost(d2);
        proof {
            let s2 = self@;
            assert(s2 == s.update(root2 as int, Some(root1)));
            lemma_union_wf(s, d, root1, root2);
            assert forall|j: int| #![trigger root_of_raw(s2, d2, j)]
                root_of_raw(s2, d2, j) == (if root_of_raw(s, d, j) == Some(root2) {
                    root_of_raw(s, d, root1 as int)
                } else {
                    root_of_raw(s, d, j)
                }) by {
                lemma_union_root(s, d, root1, root2, j);
            }
        }
        Some(root1)
    }

    /// Remove the element `query`. Its slot becomes vacant; if it was a root,
    /// its first surviving child becomes the new root of the set and adopts
    /// the other children; otherwise its children are re-parented to its
    /// former parent. All other ids are preserved.
    pub fn delete(&mut self, query: usize)
        requires
            old(self).wf(),
            query < old(self)@.len(),
        ensures
            final(self).wf(),
            final(self)@.len() == old(self)@.len(),
            final(self)@[query as int] is None,
            forall|j: int| #![trigger final(self)@[j]]
                0 <= j < old(self)@.len() && j != query ==> final(self)@[j] == delete_slot(
                    old(self)@,
                    query as int,
                    j,
                ),
            forall|j: int| final(self).live(j) <==> (old(self).live(j) && j != query),
    {
        let ghost s0 = self@;
        let ghost d0 = self.depth@;
        let ghost q = query as int;
        let parent = self.parents[query];
        let was_root = match parent {
            Some(p) => p == query,
            None => false,
        };
        self.parents.set(query, None);
        let mut new_root: Option<usize> = None;
        let mut idx: usize = 0;
        while idx < self.parents.len()
            invariant
                parents_acyclic(s0, d0),
                self@.len() == s0.len(),
                q == query as int,
                0 <= q < s0.len(),
                idx <= s0.len(),
                self.depth@ == d0,
                parent == s0[q],
                was_root == (s0[q] == Some(query)),
                self@[q] is None,
                forall|j: int| #![trigger self@[j]]
                    0 <= j < s0.len() && j != q && j < idx ==> self@[j] == delete_slot(s0, q, j),
                forall|j: int| #![trigger self@[j]]
                    0 <= j < s0.len() && j != q && j >= idx ==> self@[j] == s0[j],
                !was_root ==> new_root is None,
                was_root && new_root is None ==> forall|k: int|
                    0 <= k < idx ==> !(k != q && s0[k] == Some(query)),
                new_root matches Some(nr) ==> was_root && nr as int == first_child(s0, q) && (
                nr as int) < idx && nr as int != q && s0[nr as int] == Some(query),
            decreases self@.len() - idx,
        {
            let hit = match self.parents[idx] {
                Some(p) => p == query,
                None => false,
            };
            proof {
                if idx as int != q {
                    assert(self@[idx as int] == s0[idx as int]);
                } else {
                    assert(!hit);
                }
            }
            if was_root {
                if hit {
                    let nr = match new_root {
                        Some(nr) => nr,
                        None => idx,
                    };
                    proof {
                        if new_root is None {
                            lemma_fcf_scan(s0, q, 0, idx as int);
                        }
                    }
                    new_root = Some(nr);
                    self.parents.set(idx, Some(nr));
                }
            } else {
                if hit {
                    self.parents.set(idx, parent);
                }
            }
            idx = idx + 1;
        }
        let ghost fc = first_child(s0, q);
        if was_root {
            self.depth = Ghost(d0.insert(fc, 0));
        }
        proof {
            let s2 = self@;
            assert(self.parents@.len() == self.parents.len());
            assert(s0.len() <= usize::MAX);
            if was_root {
                lemma_delete_root_wf(s0, d0, q, s2);
            } else {
                lemma_delete_inner_wf(s0, d0, q, s2);
            }
        }
    }
}

impl Default for UnionFind {
    /// An empty forest.
    fn default() -> (r: Self)
        ensures
            r@ == Seq::<Option<usize>>::empty(),
            r.wf(),
    {
        UnionFind { parents: Vec::new(), depth: Ghost(Map::empty()) }
    }
}



} // verus!
