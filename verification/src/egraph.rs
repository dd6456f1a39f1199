//! A concrete e-graph model: e-classes of e-nodes keyed by dense ids, a
//! hash-cons table (`memo`) from e-node to owning e-class, a per-operator
//! index, and a union-find giving each class its canonical id.
//!
//! Only what the undo engine reads and mutates is modelled: e-matching,
//! rebuilding and congruence maintenance stay outside.

use vstd::prelude::*;
use crate::unionfind::UnionFind;

verus! {

/// An e-node: an operator applied to child e-class ids.
pub struct ENode {
    pub op: usize,
    pub children: Vec<usize>,
}

impl View for ENode {
    type V = (usize, Seq<usize>);

    open spec fn view(&self) -> (usize, Seq<usize>) {
        (self.op, self.children@)
    }
}

impl ENode {
    /// Structural copy.
    pub fn dup(&self) -> (r: ENode)
        ensures
            r@ == self@,
    {
        let mut children: Vec<usize> = Vec::new();
        let mut i: usize = 0;
        while i < self.children.len()
            invariant
                i <= self.children@.len(),
                children@ == self.children@.take(i as int),
            decreases self.children@.len() - i,
        {
            children.push(self.children[i]);
            proof {
                assert(children@ =~= self.children@.take(i + 1));
            }
            i = i + 1;
        }
        proof {
            assert(self.children@.take(self.children@.len() as int) =~= self.children@);
        }
        ENode { op: self.op, children }
    }

    /// Structural equality of operator and child ids.
    pub fn same_as(&self, other: &ENode) -> (r: bool)
        ensures
            r == (self@ == other@),
    {
        if self.op != other.op {
            return false;
        }
        if self.children.len() != other.children.len() {
            proof {
                assert(self@.1.len() != other@.1.len());
            }
            return false;
        }
        let mut i: usize = 0;
        while i < self.children.len()
            invariant
                i <= self.children@.len(),
                self.children@.len() == other.children@.len(),
                self.op == other.op,
                forall|k: int| 0 <= k < i ==> self.children@[k] == other.children@[k],
            decreases self.children@.len() - i,
        {
            if self.children[i] != other.children[i] {
                return false;
            }
            i = i + 1;
        }
        proof {
            assert(self.children@ =~= other.children@);
        }
        true
    }

    /// A leaf has no children.
    pub fn is_leaf(&self) -> (r: bool)
        ensures
            r == (self.children@.len() == 0),
    {
        self.children.len() == 0
    }
}

/// An equivalence class of e-nodes.
pub struct EClass {
    /// The class's canonical id; equal to its index in `EGraph::classes`.
    pub id: usize,
    /// The e-nodes of the class.
    pub nodes: Vec<ENode>,
    /// Ids of the classes that contain an e-node pointing into this class.
    pub parents: Vec<usize>,
}

/// First value in the association list whose key has the given view, scanning
/// from position `i`.
pub open spec fn memo_idx(m: Seq<(ENode, usize)>, k: (usize, Seq<usize>), i: int) -> Option<usize>
    decreases m.len() - i,
{
    if i < 0 || i >= m.len() {
        None
    } else if m[i].0@ == k {
        Some(m[i].1)
    } else {
        memo_idx(m, k, i + 1)
    }
}

/// The owning e-class that the hash-cons table assigns to an e-node shape.
pub open spec fn memo_get(m: Seq<(ENode, usize)>, k: (usize, Seq<usize>)) -> Option<usize> {
    memo_idx(m, k, 0)
}

/// First binding of a variable in a substitution, scanning from position `i`.
pub open spec fn assoc_idx(m: Seq<(usize, usize)>, k: usize, i: int) -> Option<usize>
    decreases m.len() - i,
{
    if i < 0 || i >= m.len() {
        None
    } else if m[i].0 == k {
        Some(m[i].1)
    } else {
        assoc_idx(m, k, i + 1)
    }
}

/// The e-class a substitution binds a variable to.
pub open spec fn assoc_get(m: Seq<(usize, usize)>, k: usize) -> Option<usize> {
    assoc_idx(m, k, 0)
}

/// The e-graph state the undo engine operates on.
pub struct EGraph {
    /// Union-find over class ids; live classes are its roots.
    pub unionfind: UnionFind,
    /// Class table indexed by id; `None` marks a removed class.
    pub classes: Vec<Option<EClass>>,
    /// Hash-cons: every e-node of every live class maps to its owning class.
    pub memo: Vec<(ENode, usize)>,
    /// For each operator, the ids of the classes containing it.
    pub classes_by_op: Vec<(usize, Vec<usize>)>,
    /// Whether explanation tracking is on; the undo engine refuses it.
    pub explanations_enabled: bool,
}

impl EGraph {
    /// Class `c` exists and has not been removed.
    pub open spec fn class_live(self, c: int) -> bool {
        0 <= c < self.classes@.len() && self.classes@[c] is Some
    }

    /// The e-nodes of live class `c`.
    pub open spec fn class_nodes(self, c: int) -> Seq<ENode> {
        self.classes@[c]->0.nodes@
    }

    /// The parent list of live class `c`.
    pub open spec fn class_parents(self, c: int) -> Seq<usize> {
        self.classes@[c]->0.parents@
    }

    /// Some e-node of live class `c` has the shape `k`.
    pub open spec fn node_in_class(self, c: int, k: (usize, Seq<usize>)) -> bool {
        exists|ni: int|
            0 <= ni < self.class_nodes(c).len() && (#[trigger] self.class_nodes(c)[ni])@ == k
    }

    /// Every child of `n` is a live class.
    pub open spec fn node_children_live(self, n: ENode) -> bool {
        forall|ci: int|
            0 <= ci < n.children@.len() ==> self.class_live(#[trigger] n.children@[ci] as int)
    }

    /// The e-node `n`, held by class `c`, is consistent: children live and
    /// hash-cons entry pointing back at `c`.
    pub open spec fn node_ok(self, c: int, n: ENode) -> bool {
        &&& self.node_children_live(n)
        &&& memo_get(self.memo@, n@) == Some(c as usize)
    }

    /// The live class `c` is consistent.
    pub open spec fn class_ok(self, c: int) -> bool {
        let ec = self.classes@[c]->0;
        &&& ec.id as int == c
        &&& self.unionfind.root_of(c) == Some(ec.id)
        &&& forall|ni: int| 0 <= ni < ec.nodes@.len() ==> self.node_ok(c, #[trigger] ec.nodes@[ni])
        &&& forall|ni: int, nj: int|
            0 <= ni < nj < ec.nodes@.len() ==> (#[trigger] ec.nodes@[ni])@ != (
            #[trigger] ec.nodes@[nj])@
    }

    /// The memo entry at position `mi` is consistent: it names a live class
    /// that holds the e-node, and no other entry has the same key.
    pub open spec fn memo_entry_ok(self, mi: int) -> bool {
        let e = self.memo@[mi];
        &&& self.class_live(e.1 as int)
        &&& self.node_in_class(e.1 as int, e.0@)
        &&& forall|mj: int|
            0 <= mj < self.memo@.len() && mj != mi ==> (#[trigger] self.memo@[mj]).0@ != e.0@
    }

    /// The e-graph is well formed: the union-find is sound, every live class
    /// is canonical and consistent, and the hash-cons is exactly the set of
    /// e-nodes of the live classes.
    pub open spec fn wf(self) -> bool {
        &&& self.unionfind.wf()
        &&& self.classes@.len() == self.unionfind@.len()
        &&& self.classes@.len() < usize::MAX
        &&& forall|c: int| #[trigger] self.class_live(c) ==> self.class_ok(c)
        &&& forall|mi: int| 0 <= mi < self.memo@.len() ==> self.memo_entry_ok(mi)
    }

    /// An empty e-graph with explanations disabled.
    pub fn new() -> (r: EGraph)
        ensures
            r.wf(),
            r.classes@.len() == 0,
            r.memo@.len() == 0,
            r.classes_by_op@.len() == 0,
            !r.explanations_enabled,
    {
        EGraph {
            unionfind: UnionFind::default(),
            classes: Vec::new(),
            memo: Vec::new(),
            classes_by_op: Vec::new(),
            explanations_enabled: false,
        }
    }

    /// Turn explanation tracking on or off.
    pub fn set_explanations_enabled(&mut self, b: bool)
        ensures
            final(self).explanations_enabled == b,
            final(self).unionfind == old(self).unionfind,
            final(self).classes@ == old(self).classes@,
            final(self).memo@ == old(self).memo@,
            final(self).classes_by_op@ == old(self).classes_by_op@,
            old(self).wf() ==> final(self).wf(),
    {
        self.explanations_enabled = b;
        proof {
            if old(self).wf() {
                lemma_wf_same_core(*old(self), *self);
            }
        }
    }

    /// Whether explanation tracking is on.
    pub fn are_explanations_enabled(&self) -> (r: bool)
        ensures
            r == self.explanations_enabled,
    {
        self.explanations_enabled
    }

    /// The canonical id of `id`'s class.
    pub fn find(&self, id: usize) -> (r: Option<usize>)
        requires
            self.wf(),
            id < self.classes@.len(),
        ensures
            r == self.unionfind.root_of(id as int),
    {
        self.unionfind.find(id)
    }

    /// Hash-cons lookup: the e-class owning an e-node of this shape, if any.
    pub fn lookup(&self, node: &ENode) -> (r: Option<usize>)
        ensures
            r == memo_get(self.memo@, node@),
    {
        let mut i: usize = 0;
        while i < self.memo.len()
            invariant
                i <= self.memo@.len(),
                memo_get(self.memo@, node@) == memo_idx(self.memo@, node@, i as int),
            decreases self.memo@.len() - i,
        {
            if self.memo[i].0.same_as(node) {
                return Some(self.memo[i].1);
            }
            i = i + 1;
        }
        None
    }

    /// Add a fresh empty e-class and return its id.
    pub fn add_class(&mut self) -> (id: usize)
        requires
            old(self).wf(),
            old(self).classes@.len() + 1 < usize::MAX,
        ensures
            final(self).wf(),
            id as int == old(self).classes@.len(),
            final(self).classes@.len() == old(self).classes@.len() + 1,
            forall|c: int|
                0 <= c < old(self).classes@.len() ==> final(self).classes@[c] == old(self).classes@[c],
            final(self).memo@ == old(self).memo@,
            final(self).classes_by_op@ == old(self).classes_by_op@,
            final(self).explanations_enabled == old(self).explanations_enabled,
            final(self).class_live(id as int),
            final(self).class_nodes(id as int).len() == 0,
            final(self).class_parents(id as int).len() == 0,
            forall|c: int| old(self).class_live(c) ==> final(self).class_live(c),
    {
        let id = self.unionfind.make_set();
        let nodes: Vec<ENode> = Vec::new();
        let parents: Vec<usize> = Vec::new();
        self.classes.push(Some(EClass { id, nodes, parents }));
        proof {
            let olds = *old(self);
            let news = *self;
            assert forall|c: int| #[trigger] news.class_live(c) implies news.class_ok(c) by {
                if c < olds.classes@.len() {
                    assert(olds.class_live(c));
                    assert(olds.class_ok(c));
                    assert(news.classes@[c] == olds.classes@[c]);
                    let ec = news.classes@[c]->0;
                    assert(news.unionfind.root_of(c) == olds.unionfind.root_of(c));
                    assert forall|ni: int|
                        0 <= ni < ec.nodes@.len() implies news.node_ok(
                        c,
                        #[trigger] ec.nodes@[ni],
                    ) by {
                        assert(olds.node_ok(c, ec.nodes@[ni]));
                        assert forall|ci: int|
                            0 <= ci < ec.nodes@[ni].children@.len() implies news.class_live(
                            #[trigger] ec.nodes@[ni].children@[ci] as int,
                        ) by {
                            assert(olds.class_live(ec.nodes@[ni].children@[ci] as int));
                        }
                    }
                } else {
                    assert(c == olds.classes@.len());
                    assert(news.class_nodes(c).len() == 0);
                }
            }
            assert forall|mi: int| 0 <= mi < news.memo@.len() implies news.memo_entry_ok(mi) by {
                assert(olds.memo_entry_ok(mi));
                let e = news.memo@[mi];
                assert(olds.class_live(e.1 as int));
                assert(news.class_live(e.1 as int));
                assert(news.class_nodes(e.1 as int) == olds.class_nodes(e.1 as int));
                assert(olds.node_in_class(e.1 as int, e.0@));
                let ni = choose|ni: int|
                    0 <= ni < olds.class_nodes(e.1 as int).len() && (#[trigger] olds.class_nodes(
                        e.1 as int,
                    )[ni])@ == e.0@;
                assert((news.class_nodes(e.1 as int)[ni])@ == e.0@);
            }
        }
        id
    }

    /// Add an e-node to a live class, registering it in the hash-cons. Does
    /// nothing and returns `false` if an e-node of this shape already exists
    /// anywhere in the e-graph.
    pub fn add_node(&mut self, class: usize, op: usize, children: Vec<usize>) -> (r: bool)
        requires
            old(self).wf(),
            old(self).class_live(class as int),
            forall|ci: int|
                0 <= ci < children@.len() ==> old(self).class_live(#[trigger] children@[ci] as int),
        ensures
            final(self).wf(),
            r == (memo_get(old(self).memo@, (op, children@)) is None),
            !r ==> *final(self) == *old(self),
            r ==> {
                &&& final(self).classes@.len() == old(self).classes@.len()
                &&& forall|c: int| final(self).class_live(c) <==> old(self).class_live(c)
                &&& final(self).class_nodes(class as int).len() == old(self).class_nodes(
                    class as int,
                ).len() + 1
                &&& forall|ni: int|
                    0 <= ni < old(self).class_nodes(class as int).len() ==> final(self).class_nodes(class as int)[ni] == old(self).class_nodes(class as int)[ni]
                &&& final(self).class_nodes(class as int).last()@ == (op, children@)
                &&& forall|c: int|
                    0 <= c < old(self).classes@.len() && c != class as int ==> final(self).classes@[c] == old(self).classes@[c]
                &&& final(self).class_parents(class as int) == old(self).class_parents(
                    class as int,
                )
                &&& final(self).memo@.len() == old(self).memo@.len() + 1
                &&& forall|mi: int|
                    0 <= mi < old(self).memo@.len() ==> final(self).memo@[mi] == old(self).memo@[mi]
                &&& final(self).memo@.last().0@ == (op, children@)
                &&& final(self).memo@.last().1 == class
                &&& memo_get(final(self).memo@, (op, children@)) == Some(class)
                &&& final(self).classes_by_op@ == old(self).classes_by_op@
                &&& final(self).explanations_enabled == old(self).explanations_enabled
                &&& final(self).unionfind == old(self).unionfind
            },
    {
        let probe = ENode { op, children };
        if self.lookup(&probe).is_some() {
            return false;
        }
        let n2 = probe.dup();
        let ghost nview = probe@;
        let ghost olds = *old(self);
        let mut slot: Option<EClass> = None;
        self.classes.set_and_swap(class, &mut slot);
        match slot {
            Some(mut ec) => {
                ec.nodes.push(probe);
                self.classes.set(class, Some(ec));
            },
            None => {
                proof {
                    assert(false);
                }
            },
        }
        self.memo.push((n2, class));
        proof {
            let news = *self;
            let ghost ci = class as int;
            assert(news.classes@[ci]->0.nodes@ == olds.classes@[ci]->0.nodes@.push(probe));
            assert(news.class_nodes(class as int).last()@ == nview);
            assert(news.memo@ == olds.memo@.push((n2, class)));
            assert(news.memo@.last().0@ == nview);
            assert forall|c: int|
                0 <= c < olds.classes@.len() && c != class as int implies news.classes@[c]
                == olds.classes@[c] by {}
            lemma_add_node_wf(olds, news, class, nview);
        }
        true
    }

    /// Record that the classes in `ids` contain e-nodes with operator `op`.
    pub fn add_op_index(&mut self, op: usize, ids: Vec<usize>)
        requires
            old(self).wf(),
        ensures
            final(self).wf(),
            final(self).classes_by_op@ == old(self).classes_by_op@.push((op, ids)),
            final(self).unionfind == old(self).unionfind,
            final(self).classes@ == old(self).classes@,
            final(self).memo@ == old(self).memo@,
            final(self).explanations_enabled == old(self).explanations_enabled,
    {
        self.classes_by_op.push((op, ids));
        proof {
            lemma_wf_same_core(*old(self), *self);
        }
    }
}

/// Growing the memo by one entry leaves every present key's binding and adds
/// a binding for the new key if it was absent.
proof fn lemma_memo_idx_grow(m: Seq<(ENode, usize)>, m2: Seq<(ENode, usize)>, k: (usize, Seq<usize>), i: int)
    requires
        m2.len() == m.len() + 1,
        forall|mi: int| 0 <= mi < m.len() ==> m2[mi] == m[mi],
        0 <= i <= m.len(),
    ensures
        memo_idx(m2, k, i) == (if memo_idx(m, k, i) is Some {
            memo_idx(m, k, i)
        } else if m2.last().0@ == k {
            Some(m2.last().1)
        } else {
            None
        }),
    decreases m.len() - i,
{
    if i < m.len() {
        assert(m2[i] == m[i]);
        lemma_memo_idx_grow(m, m2, k, i + 1);
    } else {
        assert(memo_idx(m, k, i) is None);
        assert(m2[i] == m2.last());
        assert(memo_idx(m2, k, i + 1) is None);
    }
}

/// Well-formedness only depends on the union-find, the class table and the
/// memo.
proof fn lemma_wf_same_core(olds: EGraph, news: EGraph)
    requires
        olds.wf(),
        news.unionfind == olds.unionfind,
        news.classes@ == olds.classes@,
        news.memo@ == olds.memo@,
    ensures
        news.wf(),
{
    assert forall|c: int| #[trigger] news.class_live(c) implies news.class_ok(c) by {
        assert(olds.class_live(c));
        assert(olds.class_ok(c));
        let ec = news.classes@[c]->0;
        assert forall|ni: int|
            0 <= ni < ec.nodes@.len() implies news.node_ok(c, #[trigger] ec.nodes@[ni]) by {
            assert(olds.node_ok(c, ec.nodes@[ni]));
            assert forall|ci: int|
                0 <= ci < ec.nodes@[ni].children@.len() implies news.class_live(
                #[trigger] ec.nodes@[ni].children@[ci] as int,
            ) by {
                assert(olds.class_live(ec.nodes@[ni].children@[ci] as int));
            }
        }
    }
    assert forall|mi: int| 0 <= mi < news.memo@.len() implies news.memo_entry_ok(mi) by {
        assert(olds.memo_entry_ok(mi));
        let e = news.memo@[mi];
        assert(olds.class_live(e.1 as int));
        let ni = choose|ni: int|
            0 <= ni < olds.class_nodes(e.1 as int).len() && (#[trigger] olds.class_nodes(
                e.1 as int,
            )[ni])@ == e.0@;
        assert((news.class_nodes(e.1 as int)[ni])@ == e.0@);
        assert(news.node_in_class(e.1 as int, e.0@));
    }
}

/// After pushing one e-node into a live class and its entry onto the memo,
/// the e-graph is still well formed.
proof fn lemma_add_node_wf(olds: EGraph, news: EGraph, class: usize, nview: (usize, Seq<usize>))
    requires
        olds.wf(),
        olds.class_live(class as int),
        forall|ci: int|
            0 <= ci < nview.1.len() ==> olds.class_live(#[trigger] nview.1[ci] as int),
        memo_get(olds.memo@, nview) is None,
        news.unionfind == olds.unionfind,
        news.classes@.len() == olds.classes@.len(),
        forall|c: int|
            0 <= c < olds.classes@.len() && c != class as int ==> news.classes@[c]
                == olds.classes@[c],
        news.class_live(class as int),
        news.classes@[class as int]->0.id == olds.classes@[class as int]->0.id,
        news.classes@[class as int]->0.parents == olds.classes@[class as int]->0.parents,
        news.class_nodes(class as int).len() == olds.class_nodes(class as int).len() + 1,
        forall|ni: int|
            0 <= ni < olds.class_nodes(class as int).len() ==> news.class_nodes(class as int)[ni]
                == olds.class_nodes(class as int)[ni],
        news.class_nodes(class as int).last()@ == nview,
        news.memo@.len() == olds.memo@.len() + 1,
        forall|mi: int| 0 <= mi < olds.memo@.len() ==> news.memo@[mi] == olds.memo@[mi],
        news.memo@.last().0@ == nview,
        news.memo@.last().1 == class,
    ensures
        news.wf(),
        memo_get(news.memo@, nview) == Some(class),
        forall|c: int| news.class_live(c) <==> olds.class_live(c),
{
    assert forall|k: (usize, Seq<usize>)| true implies #[trigger] memo_get(news.memo@, k) == (
    if memo_get(olds.memo@, k) is Some {
        memo_get(olds.memo@, k)
    } else if nview == k {
        Some(class)
    } else {
        None
    }) by {
        lemma_memo_idx_grow(olds.memo@, news.memo@, k, 0);
    }
    assert(memo_get(news.memo@, nview) == Some(class));
    assert forall|c: int| news.class_live(c) <==> olds.class_live(c) by {
        if 0 <= c < olds.classes@.len() && c != class as int {
            assert(news.classes@[c] == olds.classes@[c]);
        }
    }
    let last = olds.class_nodes(class as int).len() as int;
    assert forall|c: int| #[trigger] news.class_live(c) implies news.class_ok(c) by {
        assert(olds.class_live(c));
        assert(olds.class_ok(c));
        let eco = olds.classes@[c]->0;
        let ecn = news.classes@[c]->0;
        if c == class as int {
            assert forall|ni: int|
                0 <= ni < ecn.nodes@.len() implies news.node_ok(c, #[trigger] ecn.nodes@[ni]) by {
                if ni < last {
                    assert(ecn.nodes@[ni] == eco.nodes@[ni]);
                    assert(olds.node_ok(c, eco.nodes@[ni]));
                    assert(memo_get(news.memo@, eco.nodes@[ni]@) == memo_get(
                        olds.memo@,
                        eco.nodes@[ni]@,
                    ));
                    assert forall|ci: int|
                        0 <= ci < ecn.nodes@[ni].children@.len() implies news.class_live(
                        #[trigger] ecn.nodes@[ni].children@[ci] as int,
                    ) by {
                        assert(olds.class_live(ecn.nodes@[ni].children@[ci] as int));
                    }
                } else {
                    assert(ecn.nodes@[ni] == ecn.nodes@.last());
                    assert(ecn.nodes@[ni]@ == nview);
                    assert forall|ci: int|
                        0 <= ci < ecn.nodes@[ni].children@.len() implies news.class_live(
                        #[trigger] ecn.nodes@[ni].children@[ci] as int,
                    ) by {
                        assert(ecn.nodes@[ni].children@[ci] == nview.1[ci]);
                        assert(olds.class_live(nview.1[ci] as int));
                    }
                }
            }
            assert forall|ni: int, nj: int|
                0 <= ni < nj < ecn.nodes@.len() implies (#[trigger] ecn.nodes@[ni])@ != (
            #[trigger] ecn.nodes@[nj])@ by {
                if nj == last {
                    assert(ecn.nodes@[ni] == eco.nodes@[ni]);
                    assert(olds.node_ok(c, eco.nodes@[ni]));
                    assert(memo_get(olds.memo@, eco.nodes@[ni]@) is Some);
                    assert(ecn.nodes@[nj]@ == nview);
                } else {
                    assert(ecn.nodes@[ni] == eco.nodes@[ni]);
                    assert(ecn.nodes@[nj] == eco.nodes@[nj]);
                }
            }
        } else {
            assert(news.classes@[c] == olds.classes@[c]);
            assert forall|ni: int|
                0 <= ni < ecn.nodes@.len() implies news.node_ok(c, #[trigger] ecn.nodes@[ni]) by {
                assert(olds.node_ok(c, eco.nodes@[ni]));
                assert(memo_get(news.memo@, eco.nodes@[ni]@) == memo_get(
                    olds.memo@,
                    eco.nodes@[ni]@,
                ));
                assert forall|ci: int|
                    0 <= ci < ecn.nodes@[ni].children@.len() implies news.class_live(
                    #[trigger] ecn.nodes@[ni].children@[ci] as int,
                ) by {
                    assert(olds.class_live(ecn.nodes@[ni].children@[ci] as int));
                }
            }
        }
    }
    assert forall|mi: int| 0 <= mi < news.memo@.len() implies news.memo_entry_ok(mi) by {
        let e = news.memo@[mi];
        if mi < olds.memo@.len() {
            assert(news.memo@[mi] == olds.memo@[mi]);
            assert(olds.memo_entry_ok(mi));
            assert(news.class_live(e.1 as int));
            let ni = choose|ni: int|
                0 <= ni < olds.class_nodes(e.1 as int).len() && (#[trigger] olds.class_nodes(
                    e.1 as int,
                )[ni])@ == e.0@;
            assert((news.class_nodes(e.1 as int)[ni])@ == e.0@);
            assert(news.node_in_class(e.1 as int, e.0@));
            assert forall|mj: int|
                0 <= mj < news.memo@.len() && mj != mi implies (#[trigger] news.memo@[mj]).0@
                != e.0@ by {
                if mj < olds.memo@.len() {
                    assert(news.memo@[mj] == olds.memo@[mj]);
                    assert(olds.memo_entry_ok(mj));
                } else {
                    assert(news.memo@[mj].0@ == nview);
                    assert(olds.class_ok(e.1 as int));
                    assert(olds.node_ok(e.1 as int, olds.class_nodes(e.1 as int)[ni]));
                    assert(memo_get(olds.memo@, e.0@) is Some);
                }
            }
        } else {
            assert(e.0@ == nview && e.1 == class);
            assert(news.class_live(class as int));
            assert(news.class_nodes(class as int)[last]@ == nview);
            assert(news.node_in_class(class as int, nview));
            assert forall|mj: int|
                0 <= mj < news.memo@.len() && mj != mi implies (#[trigger] news.memo@[mj]).0@
                != e.0@ by {
                assert(news.memo@[mj] == olds.memo@[mj]);
                assert(olds.memo_entry_ok(mj));
                let oe = olds.memo@[mj];
                assert(olds.class_ok(oe.1 as int));
                let ni = choose|ni: int|
                    0 <= ni < olds.class_nodes(oe.1 as int).len() && (#[trigger] olds.class_nodes(
                        oe.1 as int,
                    )[ni])@ == oe.0@;
                assert(olds.node_ok(oe.1 as int, olds.class_nodes(oe.1 as int)[ni]));
                assert(memo_get(olds.memo@, oe.0@) is Some);
            }
        }
    }
}

} // verus!
