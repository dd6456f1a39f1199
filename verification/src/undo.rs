//! Rewrite retraction: remove the top-level e-nodes that applied rewrites
//! introduced, when it is safe, and garbage-collect what is no longer
//! reachable from the root e-classes.

use vstd::prelude::*;
use crate::egraph::{assoc_get, memo_get, EClass, EGraph, ENode};

verus! {

/// One element of a pattern AST: a concrete e-node shape whose child slots
/// index earlier AST positions, or a pattern variable.
pub enum ENodeOrVar {
    ENode(ENode),
    Var(usize),
}

/// A rewrite as the undo engine sees it: the applier's pattern AST, if the
/// applier can surface one.
pub struct Rewrite {
    pub applier_ast: Option<Vec<ENodeOrVar>>,
}

/// A substitution: bindings from pattern variables to e-class ids.
pub struct Subst {
    pub pairs: Vec<(usize, usize)>,
}

impl Subst {
    /// The binding of a variable, if any.
    pub fn get(&self, var: usize) -> (r: Option<usize>)
        ensures
            r == assoc_get(self.pairs@, var),
    {
        let mut i: usize = 0;
        while i < self.pairs.len()
            invariant
                i <= self.pairs@.len(),
                assoc_get(self.pairs@, var) == crate::egraph::assoc_idx(
                    self.pairs@,
                    var,
                    i as int,
                ),
            decreases self.pairs@.len() - i,
        {
            if self.pairs[i].0 == var {
                return Some(self.pairs[i].1);
            }
            i = i + 1;
        }
        None
    }
}

/// A pattern AST is topologically sorted: each e-node element's child slots
/// point at strictly earlier positions.
pub open spec fn pattern_wf(ast: Seq<ENodeOrVar>) -> bool {
    forall|i: int, ci: int|
        #![trigger pattern_child(ast, i, ci)]
        0 <= i < ast.len() && ast[i] is ENode && 0 <= ci < pattern_children(ast, i).len()
            ==> (pattern_child(ast, i, ci) as int) < i
}

/// The child slots of the pattern e-node at AST position `i`.
pub open spec fn pattern_children(ast: Seq<ENodeOrVar>, i: int) -> Seq<usize> {
    match ast[i] {
        ENodeOrVar::ENode(n) => n.children@,
        ENodeOrVar::Var(_) => Seq::empty(),
    }
}

/// One child slot of the pattern e-node at AST position `i`.
pub open spec fn pattern_child(ast: Seq<ENodeOrVar>, i: int, ci: int) -> usize {
    pattern_children(ast, i)[ci]
}

/// Every class a substitution binds to is live.
pub open spec fn subst_valid(eg: EGraph, subst: Subst) -> bool {
    forall|pi: int|
        0 <= pi < subst.pairs@.len() ==> eg.class_live((#[trigger] subst.pairs@[pi]).1 as int)
}

/// The shape of a pattern e-node once its child slots are replaced by the
/// resolved e-class ids in `buf`.
pub open spec fn inst_view(n: ENode, buf: Seq<usize>) -> (usize, Seq<usize>) {
    (n.op, n.children@.map_values(|c: usize| buf[c as int]))
}

/// The e-class id that AST element `i` resolves to, given the ids `buf` of
/// the elements before it: a variable reads the substitution, an e-node is
/// instantiated and looked up in the hash-cons.
pub open spec fn resolve_one(
    eg: EGraph,
    ast: Seq<ENodeOrVar>,
    subst: Subst,
    i: int,
    buf: Seq<usize>,
) -> Option<usize> {
    match ast[i] {
        ENodeOrVar::Var(v) => assoc_get(subst.pairs@, v),
        ENodeOrVar::ENode(n) => memo_get(eg.memo@, inst_view(n, buf)),
    }
}

/// The resolved ids of the first `k` AST elements (a failed element resolves
/// to a placeholder; `child_ok` tells them apart).
pub open spec fn resolve_ids(eg: EGraph, ast: Seq<ENodeOrVar>, subst: Subst, k: int) -> Seq<usize>
    decreases k,
{
    if k <= 0 {
        Seq::empty()
    } else {
        let prev = resolve_ids(eg, ast, subst, k - 1);
        prev.push(
            match resolve_one(eg, ast, subst, k - 1, prev) {
                Some(id) => id,
                None => 0,
            },
        )
    }
}

/// AST element `i` resolves.
pub open spec fn child_ok(eg: EGraph, ast: Seq<ENodeOrVar>, subst: Subst, i: int) -> bool {
    resolve_one(eg, ast, subst, i, resolve_ids(eg, ast, subst, i)) is Some
}

/// The first `k` AST elements all resolve.
pub open spec fn prefix_ok(eg: EGraph, ast: Seq<ENodeOrVar>, subst: Subst, k: int) -> bool {
    forall|i: int| 0 <= i < k ==> child_ok(eg, ast, subst, i)
}

/// The first AST element in `[j, k)` that fails to resolve; `k` if none.
pub open spec fn first_bad_from(eg: EGraph, ast: Seq<ENodeOrVar>, subst: Subst, j: int, k: int) -> int
    decreases k - j,
{
    if j < 0 || j >= k {
        k
    } else if !child_ok(eg, ast, subst, j) {
        j
    } else {
        first_bad_from(eg, ast, subst, j + 1, k)
    }
}

proof fn lemma_first_bad_at(eg: EGraph, ast: Seq<ENodeOrVar>, subst: Subst, j: int, i: int, k: int)
    requires
        0 <= j <= i < k,
        !child_ok(eg, ast, subst, i),
        forall|m: int| j <= m < i ==> child_ok(eg, ast, subst, m),
    ensures
        first_bad_from(eg, ast, subst, j, k) == i,
    decreases i - j,
{
    if j < i {
        lemma_first_bad_at(eg, ast, subst, j + 1, i, k);
    }
}

/// The view of the optional excluded e-node.
pub open spec fn ex_view(excluded: Option<&ENode>) -> Option<(usize, Seq<usize>)> {
    match excluded {
        Some(n) => Some(n@),
        None => None,
    }
}

/// The node's shape is the excluded one.
pub open spec fn excluded_matches(ex: Option<(usize, Seq<usize>)>, n: ENode) -> bool {
    ex == Some(n@)
}

/// Class `c` holds a leaf e-node other than the excluded one.
pub open spec fn has_leaf_besides(eg: EGraph, c: int, ex: Option<(usize, Seq<usize>)>) -> bool {
    exists|ni: int|
        0 <= ni < eg.class_nodes(c).len() && (#[trigger] eg.class_nodes(c)[ni])@.1.len() == 0
            && !excluded_matches(ex, eg.class_nodes(c)[ni])
}

/// The grounded-term search over one class, threading the set `v` of classes
/// already entered (a class is never re-entered: a term that needs to re-enter
/// its own class is infinite). `fuel` bounds the recursion depth; one unit is
/// spent per class entered, so any fuel above the number of classes is enough.
pub open spec fn gs_class(
    eg: EGraph,
    c: int,
    ex: Option<(usize, Seq<usize>)>,
    v: Set<int>,
    fuel: nat,
) -> (bool, Set<int>)
    decreases fuel, 2int, 0int,
{
    if !eg.class_live(c) {
        (false, v)
    } else if v.contains(c) {
        (false, v)
    } else if has_leaf_besides(eg, c, ex) {
        (true, v)
    } else {
        gs_nodes(eg, c, ex, v.insert(c), 0, fuel)
    }
}

/// Try the nodes of class `c` from position `ni` on: succeed on the first
/// non-excluded node all of whose children ground out.
pub open spec fn gs_nodes(
    eg: EGraph,
    c: int,
    ex: Option<(usize, Seq<usize>)>,
    v: Set<int>,
    ni: int,
    fuel: nat,
) -> (bool, Set<int>)
    decreases fuel, 1int, eg.class_nodes(c).len() - ni,
{
    if ni < 0 || ni >= eg.class_nodes(c).len() {
        (false, v)
    } else if excluded_matches(ex, eg.class_nodes(c)[ni]) {
        gs_nodes(eg, c, ex, v, ni + 1, fuel)
    } else {
        let r = gs_children(eg, eg.class_nodes(c)[ni].children@, ex, v, 0, fuel);
        if r.0 {
            (true, r.1)
        } else {
            gs_nodes(eg, c, ex, r.1, ni + 1, fuel)
        }
    }
}

/// Ground out every child class from position `ci` on.
pub open spec fn gs_children(
    eg: EGraph,
    chs: Seq<usize>,
    ex: Option<(usize, Seq<usize>)>,
    v: Set<int>,
    ci: int,
    fuel: nat,
) -> (bool, Set<int>)
    decreases fuel, 0int, chs.len() - ci,
{
    if ci < 0 || ci >= chs.len() {
        (true, v)
    } else {
        let r = if fuel == 0 {
            (false, v)
        } else {
            gs_class(eg, chs[ci] as int, ex, v, (fuel - 1) as nat)
        };
        if r.0 {
            gs_children(eg, chs, ex, r.1, ci + 1, fuel)
        } else {
            (false, r.1)
        }
    }
}

/// Whether class `c`, with e-nodes of shape `ex` excluded everywhere, still
/// contains a finite, cycle-free term.
pub open spec fn grounded_spec(eg: EGraph, c: int, ex: Option<(usize, Seq<usize>)>) -> bool {
    gs_class(eg, c, ex, Set::empty(), (eg.classes@.len() + 1) as nat).0
}

/// The classes marked in a visited table.
pub open spec fn marks(v: Seq<bool>) -> Set<int> {
    Set::new(|i: int| 0 <= i < v.len() && v[i])
}

/// Recursive worker for `grounded`: the visited table is threaded through the
/// whole search, exactly as `gs_class` threads its set.
fn g_class_rec(
    eg: &EGraph,
    c: usize,
    excluded: Option<&ENode>,
    visited: &mut Vec<bool>,
    fuel: usize,
) -> (r: bool)
    requires
        eg.wf(),
        old(visited)@.len() == eg.classes@.len(),
    ensures
        final(visited)@.len() == eg.classes@.len(),
        (r, marks(final(visited)@)) == gs_class(
            *eg,
            c as int,
            ex_view(excluded),
            marks(old(visited)@),
            fuel as nat,
        ),
    decreases fuel,
{
    let ghost exv = ex_view(excluded);
    let ghost v0 = marks(old(visited)@);
    if c >= eg.classes.len() {
        return false;
    }
    let ec = match &eg.classes[c] {
        Some(ec) => ec,
        None => {
            return false;
        },
    };
    if visited[c] {
        proof {
            assert(v0.contains(c as int));
        }
        return false;
    }
    proof {
        assert(!v0.contains(c as int));
        assert(ec.nodes@ == eg.class_nodes(c as int));
    }
    // scan for a leaf besides the excluded node
    let mut ni: usize = 0;
    while ni < ec.nodes.len()
        invariant
            eg.wf(),
            eg.class_live(c as int),
            ec == eg.classes@[c as int]->0,
            ni <= ec.nodes@.len(),
            exv == ex_view(excluded),
            visited@ == old(visited)@,
            visited@.len() == eg.classes@.len(),
            v0 == marks(visited@),
            !v0.contains(c as int),
            forall|k: int|
                0 <= k < ni ==> !((#[trigger] eg.class_nodes(c as int)[k])@.1.len() == 0
                    && !excluded_matches(exv, eg.class_nodes(c as int)[k])),
        decreases ec.nodes@.len() - ni,
    {
        let node = &ec.nodes[ni];
        let is_excl = match excluded {
            Some(exn) => exn.same_as(node),
            None => false,
        };
        if !is_excl && node.is_leaf() {
            proof {
                assert(eg.class_nodes(c as int)[ni as int]@.1.len() == 0);
                assert(has_leaf_besides(*eg, c as int, exv));
            }
            return true;
        }
        ni = ni + 1;
    }
    proof {
        assert(!has_leaf_besides(*eg, c as int, exv));
    }
    visited.set(c, true);
    proof {
        assert(marks(visited@) =~= v0.insert(c as int));
    }
    let ghost v1 = marks(visited@);
    let mut ni: usize = 0;
    let mut found = false;
    while !found && ni < ec.nodes.len()
        invariant
            eg.wf(),
            eg.class_live(c as int),
            ec == eg.classes@[c as int]->0,
            ni <= ec.nodes@.len(),
            exv == ex_view(excluded),
            visited@.len() == eg.classes@.len(),
            !v0.contains(c as int),
            !has_leaf_besides(*eg, c as int, exv),
            v1 == v0.insert(c as int),
            !found ==> gs_nodes(*eg, c as int, exv, v1, 0, fuel as nat) == gs_nodes(
                *eg,
                c as int,
                exv,
                marks(visited@),
                ni as int,
                fuel as nat,
            ),
            found ==> gs_nodes(*eg, c as int, exv, v1, 0, fuel as nat) == (
                true,
                marks(visited@),
            ),
        decreases ec.nodes@.len() - ni + (if found {
            0int
        } else {
            1int
        }),
    {
        let node = &ec.nodes[ni];
        let is_excl = match excluded {
            Some(exn) => exn.same_as(node),
            None => false,
        };
        if is_excl {
            proof {
                assert(excluded_matches(exv, eg.class_nodes(c as int)[ni as int]));
                assert(gs_nodes(*eg, c as int, exv, marks(visited@), ni as int, fuel as nat)
                    == gs_nodes(*eg, c as int, exv, marks(visited@), ni + 1, fuel as nat));
            }
            ni = ni + 1;
        } else {
            let ghost v2 = marks(visited@);
            let chs = &node.children;
            proof {
                assert(chs@ == eg.class_nodes(c as int)[ni as int].children@);
            }
            let mut ci: usize = 0;
            let mut ok_all = true;
            while ok_all && ci < chs.len()
                invariant
                    eg.wf(),
                    ci <= chs@.len(),
                    exv == ex_view(excluded),
                    visited@.len() == eg.classes@.len(),
                    ok_all ==> gs_children(*eg, chs@, exv, v2, 0, fuel as nat) == gs_children(
                        *eg,
                        chs@,
                        exv,
                        marks(visited@),
                        ci as int,
                        fuel as nat,
                    ),
                    !ok_all ==> gs_children(*eg, chs@, exv, v2, 0, fuel as nat) == (
                        false,
                        marks(visited@),
                    ),
                decreases chs@.len() - ci + (if ok_all {
                    1int
                } else {
                    0int
                }),
            {
                let ghost v3 = marks(visited@);
                let ch = chs[ci];
                let ok = if fuel == 0 {
                    false
                } else {
                    g_class_rec(eg, ch, excluded, visited, fuel - 1)
                };
                proof {
                    if fuel == 0 {
                        assert(gs_children(*eg, chs@, exv, v3, ci as int, fuel as nat) == (
                            false,
                            v3,
                        ));
                    } else {
                        assert((ok, marks(visited@)) == gs_class(
                            *eg,
                            ch as int,
                            exv,
                            v3,
                            (fuel - 1) as nat,
                        ));
                    }
                }
                if ok {
                    proof {
                        assert(gs_children(*eg, chs@, exv, v3, ci as int, fuel as nat)
                            == gs_children(
                            *eg,
                            chs@,
                            exv,
                            marks(visited@),
                            ci + 1,
                            fuel as nat,
                        ));
                    }
                    ci = ci + 1;
                } else {
                    proof {
                        assert(gs_children(*eg, chs@, exv, v3, ci as int, fuel as nat) == (
                            false,
                            marks(visited@),
                        ));
                    }
                    ok_all = false;
                }
            }
            if ok_all {
                proof {
                    assert(gs_children(*eg, chs@, exv, marks(visited@), ci as int, fuel as nat)
                        == (true, marks(visited@)));
                    assert(gs_nodes(*eg, c as int, exv, v2, ni as int, fuel as nat) == (
                        true,
                        marks(visited@),
                    ));
                }
                found = true;
            } else {
                proof {
                    assert(gs_nodes(*eg, c as int, exv, v2, ni as int, fuel as nat) == gs_nodes(
                        *eg,
                        c as int,
                        exv,
                        marks(visited@),
                        ni + 1,
                        fuel as nat,
                    ));
                }
                ni = ni + 1;
            }
        }
    }
    proof {
        if !found {
            assert(gs_nodes(*eg, c as int, exv, marks(visited@), ni as int, fuel as nat) == (
                false,
                marks(visited@),
            ));
        }
        assert(gs_class(*eg, c as int, exv, v0, fuel as nat) == gs_nodes(
            *eg,
            c as int,
            exv,
            v1,
            0,
            fuel as nat,
        ));
    }
    found
}

/// Whether class `class`, excluding e-nodes of shape `excluded` everywhere,
/// still contains a finite, cycle-free term.
pub fn grounded(eg: &EGraph, class: usize, excluded: Option<&ENode>) -> (r: bool)
    requires
        eg.wf(),
    ensures
        r == grounded_spec(*eg, class as int, ex_view(excluded)),
{
    let mut visited: Vec<bool> = Vec::new();
    let mut i: usize = 0;
    let n = eg.classes.len();
    while i < n
        invariant
            i <= n,
            visited@.len() == i,
            forall|k: int| 0 <= k < i ==> !visited@[k],
        decreases n - i,
    {
        visited.push(false);
        i = i + 1;
    }
    proof {
        assert(marks(visited@) =~= Set::<int>::empty());
    }
    let fuel = eg.classes.len() + 1;
    g_class_rec(eg, class, excluded, &mut visited, fuel)
}


/// A binding found by scanning is one of the substitution's pairs.
proof fn lemma_assoc_get_live(eg: EGraph, subst: Subst, var: usize, i: int)
    requires
        subst_valid(eg, subst),
        0 <= i <= subst.pairs@.len(),
        crate::egraph::assoc_idx(subst.pairs@, var, i) is Some,
    ensures
        eg.class_live(crate::egraph::assoc_idx(subst.pairs@, var, i)->0 as int),
    decreases subst.pairs@.len() - i,
{
    if i < subst.pairs@.len() && subst.pairs@[i].0 != var {
        lemma_assoc_get_live(eg, subst, var, i + 1);
    }
}

/// A key bound in the memo is bound by one of its entries.
pub proof fn lemma_memo_get_entry(m: Seq<(ENode, usize)>, k: (usize, Seq<usize>), i: int)
    requires
        0 <= i <= m.len(),
        crate::egraph::memo_idx(m, k, i) is Some,
    ensures
        exists|mi: int|
            i <= mi < m.len() && (#[trigger] m[mi]).0@ == k && m[mi].1 == crate::egraph::memo_idx(
                m,
                k,
                i,
            )->0,
    decreases m.len() - i,
{
    if i < m.len() && m[i].0@ != k {
        lemma_memo_get_entry(m, k, i + 1);
    }
}

/// If no entry from position `i` on has key `k`, the scan finds nothing.
proof fn lemma_memo_idx_nomatch(m: Seq<(ENode, usize)>, k: (usize, Seq<usize>), i: int)
    requires
        0 <= i <= m.len(),
        forall|mj: int| i <= mj < m.len() ==> (#[trigger] m[mj]).0@ != k,
    ensures
        crate::egraph::memo_idx(m, k, i) is None,
    decreases m.len() - i,
{
    if i < m.len() {
        lemma_memo_idx_nomatch(m, k, i + 1);
    }
}

/// Past the removed position, scanning the shortened memo is scanning the old
/// one shifted by one.
proof fn lemma_memo_idx_remove_hi(
    m: Seq<(ENode, usize)>,
    mi: int,
    k: (usize, Seq<usize>),
    i: int,
)
    requires
        0 <= mi < m.len(),
        mi <= i <= m.len() - 1,
    ensures
        crate::egraph::memo_idx(m.remove(mi), k, i) == crate::egraph::memo_idx(m, k, i + 1),
    decreases m.len() - i,
{
    let m2 = m.remove(mi);
    if i < m2.len() {
        assert(m2[i] == m[i + 1]);
        lemma_memo_idx_remove_hi(m, mi, k, i + 1);
    }
}

/// Removing the unique entry with key `k0` unbinds `k0` and leaves every
/// other key's binding.
proof fn lemma_memo_remove_unique(m: Seq<(ENode, usize)>, mi: int, k: (usize, Seq<usize>), i: int)
    requires
        0 <= mi < m.len(),
        0 <= i <= mi,
        forall|mj: int| 0 <= mj < m.len() && mj != mi ==> (#[trigger] m[mj]).0@ != m[mi].0@,
    ensures
        crate::egraph::memo_idx(m.remove(mi), k, i) == (if m[mi].0@ == k {
            None
        } else {
            crate::egraph::memo_idx(m, k, i)
        }),
    decreases mi - i,
{
    let m2 = m.remove(mi);
    if i == mi {
        lemma_memo_idx_remove_hi(m, mi, k, i);
        if m[mi].0@ == k {
            assert forall|mj: int| i + 1 <= mj < m.len() implies (#[trigger] m[mj]).0@ != k by {}
            lemma_memo_idx_nomatch(m, k, i + 1);
        }
    } else {
        assert(m2[i] == m[i]);
        lemma_memo_remove_unique(m, mi, k, i + 1);
    }
}

/// Index of the first e-node of shape `k` in `nodes`, scanning from `i`;
/// `nodes.len()` if there is none.
pub open spec fn node_find_from(nodes: Seq<ENode>, k: (usize, Seq<usize>), i: int) -> int
    decreases nodes.len() - i,
{
    if i < 0 || i >= nodes.len() {
        nodes.len() as int
    } else if nodes[i]@ == k {
        i
    } else {
        node_find_from(nodes, k, i + 1)
    }
}

/// Index of the first e-node of shape `k` in `nodes`.
pub open spec fn node_find(nodes: Seq<ENode>, k: (usize, Seq<usize>)) -> int {
    node_find_from(nodes, k, 0)
}

proof fn lemma_node_find_at(nodes: Seq<ENode>, k: (usize, Seq<usize>), j: int, i: int)
    requires
        0 <= j <= i < nodes.len(),
        nodes[i]@ == k,
        forall|m: int| j <= m < i ==> (#[trigger] nodes[m])@ != k,
    ensures
        node_find_from(nodes, k, j) == i,
    decreases i - j,
{
    if j < i {
        lemma_node_find_at(nodes, k, j + 1, i);
    }
}

/// When exactly one e-node of the class has shape `k`, the scan finds it.
pub proof fn lemma_node_find_at_pub(nodes: Seq<ENode>, k: (usize, Seq<usize>), i: int)
    requires
        0 <= i < nodes.len(),
        nodes[i]@ == k,
        forall|m: int| 0 <= m < nodes.len() && m != i ==> (#[trigger] nodes[m])@ != k,
    ensures
        node_find(nodes, k) == i,
{
    lemma_node_find_at(nodes, k, 0, i);
}

/// Index of the first memo entry with key `k`, scanning from `i`.
pub open spec fn memo_find_from(m: Seq<(ENode, usize)>, k: (usize, Seq<usize>), i: int) -> int
    decreases m.len() - i,
{
    if i < 0 || i >= m.len() {
        m.len() as int
    } else if m[i].0@ == k {
        i
    } else {
        memo_find_from(m, k, i + 1)
    }
}

/// Index of the first memo entry with key `k`.
pub open spec fn memo_find(m: Seq<(ENode, usize)>, k: (usize, Seq<usize>)) -> int {
    memo_find_from(m, k, 0)
}

proof fn lemma_memo_find_at(m: Seq<(ENode, usize)>, k: (usize, Seq<usize>), j: int, i: int)
    requires
        0 <= j <= i < m.len(),
        m[i].0@ == k,
        forall|mj: int| j <= mj < i ==> (#[trigger] m[mj]).0@ != k,
    ensures
        memo_find_from(m, k, j) == i,
    decreases i - j,
{
    if j < i {
        lemma_memo_find_at(m, k, j + 1, i);
    }
}

/// The state after removing the e-node of shape `k` from live class `c`:
/// that node leaves the class's node list, its hash-cons entry leaves the
/// memo, and everything else is untouched.
pub open spec fn removed_rel(eg1: EGraph, c: int, k: (usize, Seq<usize>), eg2: EGraph) -> bool {
    &&& eg2.unionfind == eg1.unionfind
    &&& eg2.classes_by_op@ == eg1.classes_by_op@
    &&& eg2.explanations_enabled == eg1.explanations_enabled
    &&& eg2.classes@.len() == eg1.classes@.len()
    &&& forall|cc: int|
        0 <= cc < eg1.classes@.len() && cc != c ==> eg2.classes@[cc] == eg1.classes@[cc]
    &&& eg2.class_live(c)
    &&& eg2.classes@[c]->0.id == eg1.classes@[c]->0.id
    &&& eg2.classes@[c]->0.parents == eg1.classes@[c]->0.parents
    &&& eg2.class_nodes(c) == eg1.class_nodes(c).remove(node_find(eg1.class_nodes(c), k))
    &&& eg2.memo@ == eg1.memo@.remove(memo_find(eg1.memo@, k))
}

/// What `remove_top_enode` returns and does, step by step: an empty pattern
/// is an error; then the children are resolved left to right, where a missing
/// variable binding is an error and a vanished subterm is a benign `false`; a
/// variable at the root is a benign `false` (only a union happened, and
/// unions are not retracted); a root e-node that is no longer hash-consed is
/// a benign `false`; a root whose class would lose its last finite term is a
/// benign `false`; otherwise the node is removed and the result is `true`.
pub open spec fn rtn_post(
    eg1: EGraph,
    ast: Seq<ENodeOrVar>,
    subst: Subst,
    r: Result<bool, String>,
    eg2: EGraph,
) -> bool {
    if ast.len() == 0 {
        &&& r matches Err(m) && m@ == "pattern_ast should not be empty"@
        &&& eg2 == eg1
    } else {
        let n = ast.len() - 1;
        if !prefix_ok(eg1, ast, subst, n) {
            let i0 = first_bad_from(eg1, ast, subst, 0, n);
            match ast[i0] {
                ENodeOrVar::Var(_) => {
                    &&& r matches Err(m) && m@ == "substitution should contain variable"@
                    &&& eg2 == eg1
                },
                ENodeOrVar::ENode(_) => {
                    &&& r == Ok::<bool, String>(false)
                    &&& eg2 == eg1
                },
            }
        } else {
            let buf = resolve_ids(eg1, ast, subst, n);
            match ast[n] {
                ENodeOrVar::Var(_) => {
                    &&& r == Ok::<bool, String>(false)
                    &&& eg2 == eg1
                },
                ENodeOrVar::ENode(top) => {
                    let tview = inst_view(top, buf);
                    match memo_get(eg1.memo@, tview) {
                        None => {
                            &&& r == Ok::<bool, String>(false)
                            &&& eg2 == eg1
                        },
                        Some(cid) => {
                            if !grounded_spec(eg1, cid as int, Some(tview)) {
                                &&& r == Ok::<bool, String>(false)
                                &&& eg2 == eg1
                            } else {
                                &&& r == Ok::<bool, String>(true)
                                &&& removed_rel(eg1, cid as int, tview, eg2)
                            }
                        },
                    }
                },
            }
        }
    }
}

/// Instantiate a pattern e-node: replace each child slot by the resolved id
/// it indexes.
fn instantiate(en: &ENode, id_buf: &Vec<usize>) -> (r: ENode)
    requires
        forall|ci: int|
            0 <= ci < en.children@.len() ==> (#[trigger] en.children@[ci] as int)
                < id_buf@.len(),
    ensures
        r@ == inst_view(*en, id_buf@),
{
    let mut children: Vec<usize> = Vec::new();
    let mut i: usize = 0;
    while i < en.children.len()
        invariant
            i <= en.children@.len(),
            forall|ci: int|
                0 <= ci < en.children@.len() ==> (#[trigger] en.children@[ci] as int)
                    < id_buf@.len(),
            children@ == en.children@.take(i as int).map_values(
                |c: usize| id_buf@[c as int],
            ),
        decreases en.children@.len() - i,
    {
        children.push(id_buf[en.children[i]]);
        proof {
            assert(children@ =~= en.children@.take(i + 1).map_values(
                |c: usize| id_buf@[c as int],
            ));
        }
        i = i + 1;
    }
    proof {
        assert(en.children@.take(en.children@.len() as int) =~= en.children@);
    }
    ENode { op: en.op, children }
}

/// After removing one e-node and its memo entry, the e-graph is still well
/// formed.
proof fn lemma_remove_node_wf(eg1: EGraph, eg2: EGraph, c: int, k: (usize, Seq<usize>))
    requires
        eg1.wf(),
        eg1.class_live(c),
        memo_get(eg1.memo@, k) == Some(c as usize),
        removed_rel(eg1, c, k, eg2),
        eg1.node_in_class(c, k),
    ensures
        eg2.wf(),
        forall|cc: int| eg2.class_live(cc) <==> eg1.class_live(cc),
        memo_get(eg2.memo@, k) is None,
        forall|k2: (usize, Seq<usize>)|
            k2 != k ==> #[trigger] memo_get(eg2.memo@, k2) == memo_get(eg1.memo@, k2),
{
    let nodes1 = eg1.class_nodes(c);
    let idx = node_find(nodes1, k);
    let mi = memo_find(eg1.memo@, k);
    lemma_memo_get_entry(eg1.memo@, k, 0);
    let wmi = choose|wmi: int|
        0 <= wmi < eg1.memo@.len() && (#[trigger] eg1.memo@[wmi]).0@ == k && eg1.memo@[wmi].1
            == c as usize;
    assert(eg1.memo_entry_ok(wmi));
    assert forall|mj: int|
        0 <= mj < eg1.memo@.len() && mj != wmi implies (#[trigger] eg1.memo@[mj]).0@ != k by {}
    lemma_memo_find_at(eg1.memo@, k, 0, wmi);
    assert(mi == wmi);
    // the removed node really is at `idx`
    let wni = choose|wni: int|
        0 <= wni < nodes1.len() && (#[trigger] nodes1[wni])@ == k;
    assert(eg1.class_ok(c));
    assert forall|m: int| 0 <= m < nodes1.len() && m != wni implies (#[trigger] nodes1[m])@
        != k by {}
    lemma_node_find_at(nodes1, k, 0, wni);
    assert(idx == wni);
    assert(0 <= idx < nodes1.len());
    let nodes2 = eg2.class_nodes(c);
    assert(nodes2 == nodes1.remove(idx));
    assert forall|k2: (usize, Seq<usize>)| true implies #[trigger] memo_get(eg2.memo@, k2) == (
    if k2 == k {
        None
    } else {
        memo_get(eg1.memo@, k2)
    }) by {
        lemma_memo_remove_unique(eg1.memo@, mi, k2, 0);
        if k2 == k {
            assert(eg1.memo@[mi].0@ == k2);
        } else {
            assert(eg1.memo@[mi].0@ == k);
        }
    }
    assert forall|cc: int| eg2.class_live(cc) <==> eg1.class_live(cc) by {
        if 0 <= cc < eg1.classes@.len() && cc != c {
            assert(eg2.classes@[cc] == eg1.classes@[cc]);
        }
    }
    // keys of e-nodes other than the removed one are unchanged in the memo
    assert forall|cc: int| #[trigger] eg2.class_live(cc) implies eg2.class_ok(cc) by {
        assert(eg1.class_live(cc));
        assert(eg1.class_ok(cc));
        let ec1 = eg1.classes@[cc]->0;
        let ec2 = eg2.classes@[cc]->0;
        if cc != c {
            assert(eg2.classes@[cc] == eg1.classes@[cc]);
        }
        assert(eg2.unionfind.root_of(cc) == eg1.unionfind.root_of(cc));
        assert forall|ni: int|
            0 <= ni < ec2.nodes@.len() implies eg2.node_ok(cc, #[trigger] ec2.nodes@[ni]) by {
            let n2 = ec2.nodes@[ni];
            let oni: int = if cc == c {
                if ni < idx {
                    ni
                } else {
                    ni + 1
                }
            } else {
                ni
            };
            assert(n2 == ec1.nodes@[oni]);
            assert(eg1.node_ok(cc, n2));
            // the node's key differs from the removed key
            if n2@ == k {
                assert(memo_get(eg1.memo@, n2@) == Some(c as usize));
                assert(cc == c);
                assert(nodes1[oni]@ == k && oni != idx);
                assert(nodes1[idx]@ == k);
            }
            assert(n2@ != k);
            assert(memo_get(eg2.memo@, n2@) == memo_get(eg1.memo@, n2@));
            assert forall|ci: int|
                0 <= ci < n2.children@.len() implies eg2.class_live(
                #[trigger] n2.children@[ci] as int,
            ) by {
                assert(eg1.class_live(n2.children@[ci] as int));
            }
        }
        assert forall|ni: int, nj: int|
            0 <= ni < nj < ec2.nodes@.len() implies (#[trigger] ec2.nodes@[ni])@ != (
        #[trigger] ec2.nodes@[nj])@ by {
            if cc == c {
                let oni: int = if ni < idx {
                    ni
                } else {
                    ni + 1
                };
                let onj: int = if nj < idx {
                    nj
                } else {
                    nj + 1
                };
                assert(ec2.nodes@[ni] == ec1.nodes@[oni]);
                assert(ec2.nodes@[nj] == ec1.nodes@[onj]);
            }
        }
    }
    assert forall|mj: int| 0 <= mj < eg2.memo@.len() implies eg2.memo_entry_ok(mj) by {
        let omj: int = if mj < mi {
            mj
        } else {
            mj + 1
        };
        let e = eg2.memo@[mj];
        assert(e == eg1.memo@[omj]);
        assert(eg1.memo_entry_ok(omj));
        assert(e.0@ != k);
        assert(eg2.class_live(e.1 as int));
        let wni2 = choose|wni2: int|
            0 <= wni2 < eg1.class_nodes(e.1 as int).len() && (#[trigger] eg1.class_nodes(
                e.1 as int,
            )[wni2])@ == e.0@;
        if e.1 as int == c {
            assert(wni2 != idx);
            let ni2: int = if wni2 < idx {
                wni2
            } else {
                wni2 - 1
            };
            assert(eg2.class_nodes(c)[ni2] == eg1.class_nodes(c)[wni2]);
            assert(eg2.node_in_class(e.1 as int, e.0@));
        } else {
            assert(eg2.class_nodes(e.1 as int) == eg1.class_nodes(e.1 as int));
            assert((eg2.class_nodes(e.1 as int)[wni2])@ == e.0@);
            assert(eg2.node_in_class(e.1 as int, e.0@));
        }
        assert forall|mj2: int|
            0 <= mj2 < eg2.memo@.len() && mj2 != mj implies (#[trigger] eg2.memo@[mj2]).0@
            != e.0@ by {
            let omj2: int = if mj2 < mi {
                mj2
            } else {
                mj2 + 1
            };
            assert(eg2.memo@[mj2] == eg1.memo@[omj2]);
        }
    }
}

/// A retraction step keeps the e-graph well formed.
pub proof fn lemma_rtn_preserves_wf(
    eg1: EGraph,
    ast: Seq<ENodeOrVar>,
    subst: Subst,
    r: Result<bool, String>,
    eg2: EGraph,
)
    requires
        eg1.wf(),
        rtn_post(eg1, ast, subst, r, eg2),
    ensures
        eg2.wf(),
{
    if eg2 != eg1 {
        let n = ast.len() - 1;
        let buf = resolve_ids(eg1, ast, subst, n);
        if ast.len() > 0 && prefix_ok(eg1, ast, subst, n) && ast[n] is ENode {
            let top = ast[n]->ENode_0;
            let tview = inst_view(top, buf);
            if memo_get(eg1.memo@, tview) is Some {
                let cid = memo_get(eg1.memo@, tview)->0;
                if grounded_spec(eg1, cid as int, Some(tview)) {
                    assert(removed_rel(eg1, cid as int, tview, eg2));
                    lemma_memo_get_entry(eg1.memo@, tview, 0);
                    let wmi = choose|wmi: int|
                        0 <= wmi < eg1.memo@.len() && (#[trigger] eg1.memo@[wmi]).0@ == tview
                            && eg1.memo@[wmi].1 == cid;
                    assert(eg1.memo_entry_ok(wmi));
                    lemma_remove_node_wf(eg1, eg2, cid as int, tview);
                }
            }
        }
    }
}

/// Resolve the concrete e-node at the pattern's root under `subst`, and if it
/// still exists and its class keeps a finite term without it, remove it from
/// its class and from the hash-cons. `Ok(false)` means the retraction was
/// skipped; errors are an empty pattern or a missing variable binding.
pub fn remove_top_enode(
    egraph: &mut EGraph,
    pattern_ast: &Vec<ENodeOrVar>,
    subst: &Subst,
) -> (r: Result<bool, String>)
    requires
        old(egraph).wf(),
        pattern_wf(pattern_ast@),
        subst_valid(*old(egraph), *subst),
    ensures
        final(egraph).wf(),
        rtn_post(*old(egraph), pattern_ast@, *subst, r, *final(egraph)),
{
    let ghost eg1 = *old(egraph);
    let ghost ast = pattern_ast@;
    if pattern_ast.len() == 0 {
        return Err("pattern_ast should not be empty".to_owned());
    }
    let n = pattern_ast.len() - 1;
    let mut id_buf: Vec<usize> = Vec::new();
    let mut i: usize = 0;
    while i < n
        invariant
            *egraph == eg1,
            eg1.wf(),
            eg1 == *old(egraph),
            ast == pattern_ast@,
            pattern_wf(ast),
            subst_valid(eg1, *subst),
            n == ast.len() - 1,
            i <= n,
            prefix_ok(eg1, ast, *subst, i as int),
            id_buf@ == resolve_ids(eg1, ast, *subst, i as int),
            id_buf@.len() == i,
        decreases n - i,
    {
        let ghost buf = id_buf@;
        match &pattern_ast[i] {
            ENodeOrVar::Var(v) => {
                match subst.get(*v) {
                    Some(id) => {
                        id_buf.push(id);
                        proof {
                            assert(resolve_one(eg1, ast, *subst, i as int, buf) == Some(id));
                            assert(id_buf@ == resolve_ids(eg1, ast, *subst, i + 1));
                            assert forall|m: int| 0 <= m < i + 1 implies child_ok(
                                eg1,
                                ast,
                                *subst,
                                m,
                            ) by {}
                        }
                    },
                    None => {
                        proof {
                            assert(!child_ok(eg1, ast, *subst, i as int));
                            lemma_first_bad_at(eg1, ast, *subst, 0, i as int, n as int);
                        }
                        return Err("substitution should contain variable".to_owned());
                    },
                }
            },
            ENodeOrVar::ENode(en) => {
                proof {
                    assert(ast[i as int] is ENode);
                    assert(en.children@ == pattern_children(ast, i as int));
                    assert forall|ci: int|
                        0 <= ci < en.children@.len() implies (#[trigger] en.children@[ci] as int)
                        < id_buf@.len() by {
                        assert(pattern_child(ast, i as int, ci) == en.children@[ci]);
                    }
                }
                let inst = instantiate(en, &id_buf);
                match egraph.lookup(&inst) {
                    Some(cid) => {
                        id_buf.push(cid);
                        proof {
                            assert(resolve_one(eg1, ast, *subst, i as int, buf) == Some(cid));
                            assert(id_buf@ == resolve_ids(eg1, ast, *subst, i + 1));
                            assert forall|m: int| 0 <= m < i + 1 implies child_ok(
                                eg1,
                                ast,
                                *subst,
                                m,
                            ) by {}
                        }
                    },
                    None => {
                        proof {
                            assert(!child_ok(eg1, ast, *subst, i as int));
                            lemma_first_bad_at(eg1, ast, *subst, 0, i as int, n as int);
                        }
                        return Ok(false);
                    },
                }
            },
        }
        i = i + 1;
    }
    let top = match &pattern_ast[n] {
        ENodeOrVar::Var(_) => {
            return Ok(false);
        },
        ENodeOrVar::ENode(en) => {
            proof {
                assert(ast[n as int] is ENode);
                assert(en.children@ == pattern_children(ast, n as int));
                assert forall|ci: int|
                    0 <= ci < en.children@.len() implies (#[trigger] en.children@[ci] as int)
                    < id_buf@.len() by {
                    assert(pattern_child(ast, n as int, ci) == en.children@[ci]);
                }
            }
            instantiate(en, &id_buf)
        },
    };
    let ghost tview = top@;
    let cid = match egraph.lookup(&top) {
        Some(cid) => cid,
        None => {
            return Ok(false);
        },
    };
    proof {
        lemma_memo_get_entry(egraph.memo@, tview, 0);
        let wmi = choose|wmi: int|
            0 <= wmi < egraph.memo@.len() && (#[trigger] egraph.memo@[wmi]).0@ == tview
                && egraph.memo@[wmi].1 == cid;
        assert(egraph.memo_entry_ok(wmi));
        assert(egraph.class_live(cid as int));
        assert(egraph.node_in_class(cid as int, tview));
    }
    if !grounded(egraph, cid, Some(&top)) {
        return Ok(false);
    }
    // remove the node from its class
    let mut slot: Option<EClass> = None;
    egraph.classes.set_and_swap(cid, &mut slot);
    match slot {
        Some(mut ec) => {
            let mut ni: usize = 0;
            let mut at: usize = 0;
            let mut found = false;
            while !found && ni < ec.nodes.len()
                invariant
                    ni <= ec.nodes@.len(),
                    tview == top@,
                    !found ==> forall|m: int|
                        0 <= m < ni ==> (#[trigger] ec.nodes@[m])@ != tview,
                    found ==> 0 <= at < ec.nodes@.len() && ec.nodes@[at as int]@ == tview
                        && (forall|m: int| 0 <= m < at ==> (#[trigger] ec.nodes@[m])@ != tview),
                decreases ec.nodes@.len() - ni + (if found {
                    0int
                } else {
                    1int
                }),
            {
                if ec.nodes[ni].same_as(&top) {
                    at = ni;
                    found = true;
                } else {
                    ni = ni + 1;
                }
            }
            proof {
                assert(eg1.node_in_class(cid as int, tview));
                assert(eg1.class_nodes(cid as int) == ec.nodes@);
                if !found {
                    let wni = choose|wni: int|
                        0 <= wni < ec.nodes@.len() && (#[trigger] ec.nodes@[wni])@ == tview;
                    assert(false);
                }
                lemma_node_find_at(ec.nodes@, tview, 0, at as int);
            }
            let _removed_node = ec.nodes.remove(at);
            egraph.classes.set(cid, Some(ec));
        },
        None => {
            proof {
                assert(false);
            }
        },
    }
    // remove the hash-cons entry
    let mut mi: usize = 0;
    let mut mat: usize = 0;
    let mut mfound = false;
    while !mfound && mi < egraph.memo.len()
        invariant
            mi <= egraph.memo@.len(),
            tview == top@,
            egraph.memo@ == eg1.memo@,
            !mfound ==> forall|m: int|
                0 <= m < mi ==> (#[trigger] egraph.memo@[m]).0@ != tview,
            mfound ==> 0 <= mat < egraph.memo@.len() && egraph.memo@[mat as int].0@ == tview && (
            forall|m: int| 0 <= m < mat ==> (#[trigger] egraph.memo@[m]).0@ != tview),
        decreases egraph.memo@.len() - mi + (if mfound {
            0int
        } else {
            1int
        }),
    {
        if egraph.memo[mi].0.same_as(&top) {
            mat = mi;
            mfound = true;
        } else {
            mi = mi + 1;
        }
    }
    proof {
        if !mfound {
            lemma_memo_idx_nomatch(eg1.memo@, tview, 0);
            assert(false);
        }
        lemma_memo_find_at(eg1.memo@, tview, 0, mat as int);
    }
    let _removed_entry = self_memo_remove(egraph, mat);
    proof {
        assert(removed_rel(eg1, cid as int, tview, *egraph));
        lemma_remove_node_wf(eg1, *egraph, cid as int, tview);
    }
    Ok(true)
}

/// Remove and return the memo entry at `mat`.
fn self_memo_remove(egraph: &mut EGraph, mat: usize) -> (e: (ENode, usize))
    requires
        mat < old(egraph).memo@.len(),
    ensures
        e == old(egraph).memo@[mat as int],
        final(egraph).memo@ == old(egraph).memo@.remove(mat as int),
        final(egraph).unionfind == old(egraph).unionfind,
        final(egraph).classes@ == old(egraph).classes@,
        final(egraph).classes_by_op@ == old(egraph).classes_by_op@,
        final(egraph).explanations_enabled == old(egraph).explanations_enabled,
{
    egraph.memo.remove(mat)
}


/// Some root canonicalizes to class `c`.
pub open spec fn root_seed(eg: EGraph, roots: Seq<usize>, c: int) -> bool {
    exists|ri: int|
        0 <= ri < roots.len() && {
            let r = eg.unionfind.root_of((#[trigger] roots[ri]) as int);
            r is Some && r->0 as int == c
        }
}

/// Class `a` holds an e-node with child class `b`.
pub open spec fn edge(eg: EGraph, a: int, b: int) -> bool {
    exists|ni: int, ci: int|
        #![trigger eg.class_nodes(a)[ni].children@[ci]]
        0 <= ni < eg.class_nodes(a).len() && 0 <= ci < eg.class_nodes(a)[ni].children@.len()
            && eg.class_nodes(a)[ni].children@[ci] as int == b
}

/// `p` is a live child-edge path from a canonicalized root to `c`.
pub open spec fn path_ok(eg: EGraph, roots: Seq<usize>, p: Seq<int>, c: int) -> bool {
    &&& p.len() > 0
    &&& p.last() == c
    &&& root_seed(eg, roots, p[0])
    &&& forall|k: int| 0 <= k < p.len() ==> eg.class_live(#[trigger] p[k])
    &&& forall|k: int| 0 <= k < p.len() - 1 ==> edge(eg, #[trigger] p[k], p[k + 1])
}

/// Class `c` participates in a term reachable from one of the roots.
pub open spec fn is_reachable(eg: EGraph, roots: Seq<usize>, c: int) -> bool {
    exists|p: Seq<int>| path_ok(eg, roots, p, c)
}

/// The set of reachable classes.
pub open spec fn reach_set(eg: EGraph, roots: Seq<usize>) -> Set<int> {
    Set::new(|c: int| is_reachable(eg, roots, c))
}

/// `r` is a usable root: it exists in the union-find and canonicalizes to a
/// live class.
pub open spec fn root_ok(eg: EGraph, r: usize) -> bool {
    &&& (r as int) < eg.classes@.len()
    &&& eg.unionfind.root_of(r as int) is Some
    &&& eg.class_live(eg.unionfind.root_of(r as int)->0 as int)
}

/// Every root is usable.
pub open spec fn roots_ok(eg: EGraph, roots: Seq<usize>) -> bool {
    forall|ri: int| 0 <= ri < roots.len() ==> root_ok(eg, #[trigger] roots[ri])
}

proof fn lemma_reachable_live(eg: EGraph, roots: Seq<usize>, c: int)
    requires
        is_reachable(eg, roots, c),
    ensures
        eg.class_live(c),
{
    let p = choose|p: Seq<int>| path_ok(eg, roots, p, c);
    assert(eg.class_live(p[p.len() - 1]));
}

/// Reachability follows child edges.
pub proof fn lemma_reach_extend_pub(eg: EGraph, roots: Seq<usize>, a: int, b: int)
    requires
        is_reachable(eg, roots, a),
        edge(eg, a, b),
        eg.class_live(b),
    ensures
        is_reachable(eg, roots, b),
{
    lemma_reach_extend(eg, roots, a, b);
}

proof fn lemma_reach_extend(eg: EGraph, roots: Seq<usize>, a: int, b: int)
    requires
        is_reachable(eg, roots, a),
        edge(eg, a, b),
        eg.class_live(b),
    ensures
        is_reachable(eg, roots, b),
{
    let p = choose|p: Seq<int>| path_ok(eg, roots, p, a);
    let p2 = p.push(b);
    assert(p2.last() == b);
    assert(p2[0] == p[0]);
    assert forall|k: int| 0 <= k < p2.len() implies eg.class_live(#[trigger] p2[k]) by {
        if k < p.len() {
            assert(p2[k] == p[k]);
        }
    }
    assert forall|k: int| 0 <= k < p2.len() - 1 implies edge(eg, #[trigger] p2[k], p2[k + 1]) by {
        if k < p.len() - 1 {
            assert(p2[k] == p[k] && p2[k + 1] == p[k + 1]);
        } else {
            assert(p2[k] == p.last() && p2[k + 1] == b);
        }
    }
    assert(path_ok(eg, roots, p2, b));
}

/// All child classes of class `c`'s e-nodes are marked in `vs`.
pub open spec fn class_closed(eg: EGraph, vs: Seq<bool>, c: int) -> bool {
    forall|ni: int, ci: int|
        #![trigger eg.class_nodes(c)[ni].children@[ci]]
        0 <= ni < eg.class_nodes(c).len() && 0 <= ci < eg.class_nodes(c)[ni].children@.len()
            ==> vs[eg.class_nodes(c)[ni].children@[ci] as int]
}

/// Class `c` is somewhere on the worklist.
pub open spec fn on_stack(st: Seq<usize>, c: int) -> bool {
    exists|si: int| 0 <= si < st.len() && (#[trigger] st[si]) as int == c
}

/// Number of unmarked slots.
pub open spec fn count_false(v: Seq<bool>) -> nat
    decreases v.len(),
{
    if v.len() == 0 {
        0
    } else {
        count_false(v.drop_last()) + if v.last() {
            0nat
        } else {
            1nat
        }
    }
}

proof fn lemma_count_false_set(v: Seq<bool>, i: int)
    requires
        0 <= i < v.len(),
        !v[i],
    ensures
        count_false(v.update(i, true)) == count_false(v) - 1,
    decreases v.len(),
{
    let v2 = v.update(i, true);
    if i == v.len() - 1 {
        assert(v2.drop_last() =~= v.drop_last());
        assert(v2.last());
    } else {
        assert(v2.drop_last() =~= v.drop_last().update(i, true));
        lemma_count_false_set(v.drop_last(), i);
        assert(v2.last() == v.last());
    }
}

/// When the marking is closed under child edges and contains every seed, it
/// contains everything a path can reach.
proof fn lemma_closed_covers(eg: EGraph, roots: Seq<usize>, vs: Seq<bool>, p: Seq<int>)
    requires
        vs.len() == eg.classes@.len(),
        forall|c: int| root_seed(eg, roots, c) && eg.class_live(c) ==> vs[c],
        forall|c: int| 0 <= c < vs.len() && vs[c] ==> class_closed(eg, vs, c),
        path_ok(eg, roots, p, p.last()),
    ensures
        vs[p.last()],
    decreases p.len(),
{
    if p.len() == 1 {
        assert(eg.class_live(p[0]));
    } else {
        let p1 = p.drop_last();
        assert(p1[0] == p[0]);
        assert forall|k: int| 0 <= k < p1.len() implies eg.class_live(#[trigger] p1[k]) by {
            assert(p1[k] == p[k]);
        }
        assert forall|k: int| 0 <= k < p1.len() - 1 implies edge(eg, #[trigger] p1[k], p1[k + 1]) by {
            assert(p1[k] == p[k] && p1[k + 1] == p[k + 1]);
        }
        assert(path_ok(eg, roots, p1, p1.last()));
        lemma_closed_covers(eg, roots, vs, p1);
        let a = p1.last();
        let b = p.last();
        assert(a == p[p.len() - 2] && edge(eg, p[p.len() - 2], p[p.len() - 1]));
        assert(0 <= a < vs.len());
        assert(class_closed(eg, vs, a));
        let (ni, ci) = choose|ni: int, ci: int|
            #![trigger eg.class_nodes(a)[ni].children@[ci]]
            0 <= ni < eg.class_nodes(a).len() && 0 <= ci < eg.class_nodes(a)[ni].children@.len()
                && eg.class_nodes(a)[ni].children@[ci] as int == b;
        assert(eg.class_nodes(a)[ni].children@[ci] as int == b);
        assert(vs[b]);
    }
}

/// The memo entries whose class is in `keep`, scanning from position `i`.
pub open spec fn memo_keep(m: Seq<(ENode, usize)>, keep: Set<int>, i: int) -> Seq<(ENode, usize)>
    decreases m.len() - i,
{
    if i < 0 || i >= m.len() {
        Seq::empty()
    } else if keep.contains(m[i].1 as int) {
        seq![m[i]] + memo_keep(m, keep, i + 1)
    } else {
        memo_keep(m, keep, i + 1)
    }
}

/// Every kept entry is one of the original entries, with a kept class.
proof fn lemma_memo_keep_elems(m: Seq<(ENode, usize)>, keep: Set<int>, i: int)
    requires
        0 <= i <= m.len(),
    ensures
        forall|ji: int|
            0 <= ji < memo_keep(m, keep, i).len() ==> exists|j: int|
                i <= j < m.len() && m[j] == #[trigger] memo_keep(m, keep, i)[ji]
                    && keep.contains(m[j].1 as int),
    decreases m.len() - i,
{
    if i < m.len() {
        lemma_memo_keep_elems(m, keep, i + 1);
        let kept = memo_keep(m, keep, i);
        let rest = memo_keep(m, keep, i + 1);
        if keep.contains(m[i].1 as int) {
            assert(kept == seq![m[i]] + rest);
            assert(kept.len() == rest.len() + 1);
            assert(kept[0] == m[i]);
        } else {
            assert(kept == rest);
        }
        assert forall|ji: int| 0 <= ji < kept.len() implies exists|j: int|
            i <= j < m.len() && m[j] == #[trigger] kept[ji] && keep.contains(m[j].1 as int) by {
            if keep.contains(m[i].1 as int) && ji == 0 {
                assert(kept[0] == m[i]);
                assert(i <= i < m.len() && m[i] == kept[0] && keep.contains(m[i].1 as int));
            } else {
                let ji2: int = if keep.contains(m[i].1 as int) {
                    ji - 1
                } else {
                    ji
                };
                assert(kept[ji] == rest[ji2]);
                let j = choose|j: int|
                    i + 1 <= j < m.len() && m[j] == rest[ji2] && keep.contains(m[j].1 as int);
                assert(i <= j < m.len() && m[j] == kept[ji] && keep.contains(m[j].1 as int));
            }
        }
    }
}

/// Keys stay pairwise distinct after filtering the memo.
proof fn lemma_memo_keep_unique(m: Seq<(ENode, usize)>, keep: Set<int>, i: int)
    requires
        0 <= i <= m.len(),
        forall|a: int, b: int| i <= a < b < m.len() ==> (#[trigger] m[a]).0@ != (#[trigger] m[b]).0@,
    ensures
        forall|a: int, b: int|
            0 <= a < b < memo_keep(m, keep, i).len() ==> (#[trigger] memo_keep(m, keep, i)[a]).0@
                != (#[trigger] memo_keep(m, keep, i)[b]).0@,
    decreases m.len() - i,
{
    if i < m.len() {
        lemma_memo_keep_unique(m, keep, i + 1);
        lemma_memo_keep_elems(m, keep, i + 1);
        let kept = memo_keep(m, keep, i);
        let rest = memo_keep(m, keep, i + 1);
        assert forall|a: int, b: int| 0 <= a < b < kept.len() implies (#[trigger] kept[a]).0@ != (
        #[trigger] kept[b]).0@ by {
            if keep.contains(m[i].1 as int) {
                if a == 0 {
                    assert(kept[0] == m[i]);
                    assert(kept[b] == rest[b - 1]);
                    let j = choose|j: int|
                        i + 1 <= j < m.len() && m[j] == rest[b - 1] && keep.contains(
                            m[j].1 as int,
                        );
                    assert(m[i].0@ != m[j].0@);
                } else {
                    assert(kept[a] == rest[a - 1] && kept[b] == rest[b - 1]);
                }
            } else {
                assert(kept[a] == rest[a] && kept[b] == rest[b]);
            }
        }
    }
}

/// Filtering the memo unbinds exactly the keys whose class is dropped.
proof fn lemma_memo_keep_get(m: Seq<(ENode, usize)>, keep: Set<int>, k: (usize, Seq<usize>), i: int)
    requires
        0 <= i <= m.len(),
        forall|a: int, b: int| i <= a < b < m.len() ==> (#[trigger] m[a]).0@ != (#[trigger] m[b]).0@,
    ensures
        memo_get(memo_keep(m, keep, i), k) == {
            let r = crate::egraph::memo_idx(m, k, i);
            if r is Some && keep.contains(r->0 as int) {
                r
            } else {
                None
            }
        },
    decreases m.len() - i,
{
    let kept = memo_keep(m, keep, i);
    let rest = memo_keep(m, keep, i + 1);
    if i < m.len() {
        lemma_memo_keep_get(m, keep, k, i + 1);
        if m[i].0@ == k {
            if keep.contains(m[i].1 as int) {
                assert(kept[0] == m[i]);
                assert(memo_get(kept, k) == Some(m[i].1));
            } else {
                // no later entry can match the unique key
                assert forall|mj: int| i + 1 <= mj < m.len() implies (#[trigger] m[mj]).0@
                    != k by {}
                lemma_memo_idx_nomatch(m, k, i + 1);
            }
        } else {
            if keep.contains(m[i].1 as int) {
                assert(kept == seq![m[i]] + rest);
                assert(kept[0] == m[i]);
                assert(kept[0].0@ != k);
                assert forall|ji: int| 0 <= ji < rest.len() implies #[trigger] kept[ji + 1]
                    == rest[ji] by {}
                lemma_memo_idx_shift(kept, rest, k);
            }
        }
    }
}

/// Scanning a sequence from its second element is scanning its tail.
proof fn lemma_memo_idx_shift(kept: Seq<(ENode, usize)>, rest: Seq<(ENode, usize)>, k: (usize, Seq<usize>))
    requires
        kept.len() == rest.len() + 1,
        forall|ji: int| 0 <= ji < rest.len() ==> #[trigger] kept[ji + 1] == rest[ji],
    ensures
        crate::egraph::memo_idx(kept, k, 1) == memo_get(rest, k),
{
    lemma_memo_idx_shift_rec(kept, rest, k, 0);
}

proof fn lemma_memo_idx_shift_rec(
    kept: Seq<(ENode, usize)>,
    rest: Seq<(ENode, usize)>,
    k: (usize, Seq<usize>),
    i: int,
)
    requires
        kept.len() == rest.len() + 1,
        forall|ji: int| 0 <= ji < rest.len() ==> #[trigger] kept[ji + 1] == rest[ji],
        0 <= i <= rest.len(),
    ensures
        crate::egraph::memo_idx(kept, k, i + 1) == crate::egraph::memo_idx(rest, k, i),
    decreases rest.len() - i,
{
    if i < rest.len() {
        assert(kept[i + 1] == rest[i]);
        lemma_memo_idx_shift_rec(kept, rest, k, i + 1);
    }
}

/// Count of live but unreachable classes among the first `k`.
pub open spec fn dropped_upto(eg: EGraph, roots: Seq<usize>, k: int) -> int
    decreases k,
{
    if k <= 0 {
        0
    } else {
        dropped_upto(eg, roots, k - 1) + if eg.class_live(k - 1) && !is_reachable(
            eg,
            roots,
            k - 1,
        ) {
            1int
        } else {
            0int
        }
    }
}

/// The state after garbage collection from `eg1` with the given roots:
/// exactly the reachable classes survive, with their parent lists and the
/// per-operator index trimmed to surviving classes, and the memo trimmed to
/// the e-nodes of surviving classes. `count` is the number of dropped
/// classes.
pub open spec fn gc_rel(eg1: EGraph, roots: Seq<usize>, eg2: EGraph, count: u32) -> bool {
    &&& eg2.unionfind == eg1.unionfind
    &&& eg2.explanations_enabled == eg1.explanations_enabled
    &&& eg2.classes@.len() == eg1.classes@.len()
    &&& forall|c: int| eg2.class_live(c) <==> (eg1.class_live(c) && is_reachable(eg1, roots, c))
    &&& forall|c: int|
        #![trigger eg2.class_nodes(c)]
        eg2.class_live(c) ==> {
            &&& eg2.class_nodes(c) == eg1.class_nodes(c)
            &&& eg2.classes@[c]->0.id == eg1.classes@[c]->0.id
            &&& eg2.class_parents(c) == eg1.class_parents(c).filter(
                (|p: usize| is_reachable(eg1, roots, p as int)),
            )
        }
    &&& eg2.memo@ == memo_keep(eg1.memo@, reach_set(eg1, roots), 0)
    &&& eg2.classes_by_op@.len() == eg1.classes_by_op@.len()
    &&& forall|oi: int|
        #![trigger eg2.classes_by_op@[oi]]
        0 <= oi < eg1.classes_by_op@.len() ==> {
            &&& eg2.classes_by_op@[oi].0 == eg1.classes_by_op@[oi].0
            &&& eg2.classes_by_op@[oi].1@ == eg1.classes_by_op@[oi].1@.filter(
                (|id: usize| is_reachable(eg1, roots, id as int)),
            )
        }
    &&& count as int == dropped_upto(eg1, roots, eg1.classes@.len() as int)
}

/// Pushing one element through a filter.
proof fn lemma_filter_push<A>(s: Seq<A>, x: A, pred: spec_fn(A) -> bool)
    ensures
        s.push(x).filter(pred) == (if pred(x) {
            s.filter(pred).push(x)
        } else {
            s.filter(pred)
        }),
{
    Seq::lemma_filter_push(s, x, pred);
}

/// Garbage collection keeps the e-graph well formed.
proof fn lemma_gc_wf(eg1: EGraph, roots: Seq<usize>, eg2: EGraph, count: u32)
    requires
        eg1.wf(),
        gc_rel(eg1, roots, eg2, count),
    ensures
        eg2.wf(),
{
    let keep = reach_set(eg1, roots);
    assert forall|a: int, b: int| 0 <= a < b < eg1.memo@.len() implies (#[trigger] eg1.memo@[a]).0@
        != (#[trigger] eg1.memo@[b]).0@ by {
        assert(eg1.memo_entry_ok(a));
    }
    lemma_memo_keep_elems(eg1.memo@, keep, 0);
    lemma_memo_keep_unique(eg1.memo@, keep, 0);
    assert forall|c: int| #[trigger] eg2.class_live(c) implies eg2.class_ok(c) by {
        assert(eg1.class_live(c) && is_reachable(eg1, roots, c));
        assert(eg1.class_ok(c));
        let ec2 = eg2.classes@[c]->0;
        assert(eg2.class_nodes(c) == eg1.class_nodes(c));
        assert(eg2.classes@[c]->0.id == eg1.classes@[c]->0.id);
        assert(ec2.id as int == c);
        assert(eg2.unionfind.root_of(c) == Some(ec2.id));
        assert(ec2.nodes@ == eg1.class_nodes(c));
        assert forall|ni: int|
            0 <= ni < ec2.nodes@.len() implies eg2.node_ok(c, #[trigger] ec2.nodes@[ni]) by {
            let n = ec2.nodes@[ni];
            assert(eg1.node_ok(c, n));
            assert forall|ci: int|
                0 <= ci < n.children@.len() implies eg2.class_live(
                #[trigger] n.children@[ci] as int,
            ) by {
                let b = n.children@[ci] as int;
                assert(eg1.class_live(b));
                assert(eg1.class_nodes(c)[ni].children@[ci] as int == b);
                assert(edge(eg1, c, b));
                lemma_reach_extend(eg1, roots, c, b);
            }
            lemma_memo_keep_get(eg1.memo@, keep, n@, 0);
            assert(keep.contains(c));
        }
    }
    assert forall|mi: int| 0 <= mi < eg2.memo@.len() implies eg2.memo_entry_ok(mi) by {
        let e = eg2.memo@[mi];
        let j = choose|j: int|
            0 <= j < eg1.memo@.len() && eg1.memo@[j] == e && keep.contains(eg1.memo@[j].1 as int);
        assert(eg1.memo_entry_ok(j));
        assert(eg1.class_live(e.1 as int));
        assert(is_reachable(eg1, roots, e.1 as int));
        assert(eg2.class_live(e.1 as int));
        assert(eg2.class_nodes(e.1 as int) == eg1.class_nodes(e.1 as int));
        let ni = choose|ni: int|
            0 <= ni < eg1.class_nodes(e.1 as int).len() && (#[trigger] eg1.class_nodes(
                e.1 as int,
            )[ni])@ == e.0@;
        assert((eg2.class_nodes(e.1 as int)[ni])@ == e.0@);
        assert(eg2.node_in_class(e.1 as int, e.0@));
    }
}


proof fn lemma_on_stack_push(st: Seq<usize>, x: usize, c: int)
    requires
        on_stack(st, c),
    ensures
        on_stack(st.push(x), c),
{
    let si = choose|si: int| 0 <= si < st.len() && (#[trigger] st[si]) as int == c;
    assert(st.push(x)[si] == st[si]);
}

/// Depth-first marking of every class reachable from the canonical root
/// classes. On return the table marks exactly the live reachable classes.
#[verifier::rlimit(80)]
fn gc_mark(eg: &EGraph, roots: &Vec<usize>, visited: &mut Vec<bool>)
    requires
        eg.wf(),
        roots_ok(*eg, roots@),
        old(visited)@.len() == eg.classes@.len(),
        forall|k: int| 0 <= k < old(visited)@.len() ==> !old(visited)@[k],
    ensures
        final(visited)@.len() == eg.classes@.len(),
        forall|c: int|
            #![trigger final(visited)@[c]]
            0 <= c < eg.classes@.len() ==> (final(visited)@[c] <==> (eg.class_live(c)
                && is_reachable(*eg, roots@, c))),
{
    let ghost eg0 = *eg;
    let n = eg.classes.len();
    let mut stack: Vec<usize> = Vec::new();
    proof {
        assert forall|c: int| 0 <= c < n implies !visited@[c] by {
            assert(!old(visited)@[c]);
        }
    }
    let mut ri: usize = 0;
    while ri < roots.len()
        invariant
            eg0 == *eg,
            eg0.wf(),
            n == eg0.classes@.len(),
            roots_ok(eg0, roots@),
            ri <= roots@.len(),
            visited@.len() == n,
            forall|c: int|
                #![trigger visited@[c]]
                0 <= c < n && visited@[c] ==> eg0.class_live(c) && is_reachable(eg0, roots@, c),
            forall|c: int|
                #![trigger visited@[c]]
                0 <= c < n && visited@[c] ==> on_stack(stack@, c),
            forall|si: int|
                0 <= si < stack@.len() ==> ((#[trigger] stack@[si]) as int) < n
                    && visited@[stack@[si] as int],
            forall|rj: int|
                0 <= rj < ri ==> visited@[eg0.unionfind.root_of(
                    (#[trigger] roots@[rj]) as int,
                )->0 as int],
        decreases roots@.len() - ri,
    {
        let root = roots[ri];
        proof {
            assert(root_ok(eg0, roots@[ri as int]));
        }
        let rc = match eg.find(root) {
            Some(rc) => rc,
            None => {
                proof {
                    assert(false);
                }
                0
            },
        };
        proof {
            assert(eg0.class_live(rc as int));
            let p = seq![rc as int];
            assert(p.last() == rc as int);
            assert(root_seed(eg0, roots@, rc as int));
            assert(path_ok(eg0, roots@, p, rc as int));
            assert(is_reachable(eg0, roots@, rc as int));
        }
        if !visited[rc] {
            let ghost st0 = stack@;
            visited.set(rc, true);
            stack.push(rc);
            proof {
                assert forall|c: int| 0 <= c < n && visited@[c] implies on_stack(stack@, c) by {
                    if c == rc as int {
                        assert(stack@[st0.len() as int] as int == c);
                    } else {
                        lemma_on_stack_push(st0, rc, c);
                    }
                }
            }
        } else {
            proof {
                assert(on_stack(stack@, rc as int));
            }
        }
        ri = ri + 1;
    }
    proof {
        // every seed class is marked
        assert forall|c: int| root_seed(eg0, roots@, c) && eg0.class_live(c) implies visited@[c] by {
            let ri2 = choose|ri2: int|
                0 <= ri2 < roots@.len() && {
                    let r = eg0.unionfind.root_of((#[trigger] roots@[ri2]) as int);
                    r is Some && r->0 as int == c
                };
            assert(visited@[eg0.unionfind.root_of(roots@[ri2] as int)->0 as int]);
        }
    }
    while stack.len() > 0
        invariant
            eg0 == *eg,
            eg0.wf(),
            n == eg0.classes@.len(),
            roots_ok(eg0, roots@),
            visited@.len() == n,
            forall|c: int|
                #![trigger visited@[c]]
                0 <= c < n && visited@[c] ==> eg0.class_live(c) && is_reachable(eg0, roots@, c),
            forall|si: int|
                0 <= si < stack@.len() ==> ((#[trigger] stack@[si]) as int) < n
                    && visited@[stack@[si] as int],
            forall|c: int|
                #![trigger visited@[c]]
                0 <= c < n && visited@[c] && !on_stack(stack@, c) ==> class_closed(
                    eg0,
                    visited@,
                    c,
                ),
            forall|c: int|
                #![trigger root_seed(eg0, roots@, c)]
                root_seed(eg0, roots@, c) && eg0.class_live(c) ==> visited@[c],
        decreases stack@.len() + count_false(visited@),
    {
        let ghost stack_pre = stack@;
        let ghost vs_pre = visited@;
        let c = match stack.pop() {
            Some(c) => c,
            None => {
                proof {
                    assert(false);
                }
                0
            },
        };
        let ghost stack1 = stack@;
        let ghost msr1 = stack@.len() + count_false(visited@);
        proof {
            assert(stack_pre[stack_pre.len() - 1] as int == c as int);
            assert(visited@[c as int]);
            assert(eg0.class_live(c as int));
            // after the pop, unfinished marked classes other than c are still on the stack
            assert forall|c2: int|
                0 <= c2 < n && visited@[c2] && !on_stack(stack1, c2) && c2 != c as int
                implies class_closed(eg0, visited@, c2) by {
                if on_stack(stack_pre, c2) {
                    let si = choose|si: int|
                        0 <= si < stack_pre.len() && (#[trigger] stack_pre[si]) as int == c2;
                    assert(si < stack_pre.len() - 1);
                    assert(stack1[si] as int == c2);
                    assert(on_stack(stack1, c2));
                }
                assert(!on_stack(stack_pre, c2));
            }
        }
        let ec = eg.classes[c].as_ref().unwrap();
        proof {
            assert(eg0.class_ok(c as int));
            assert(ec.nodes@ == eg0.class_nodes(c as int));
        }
        let mut ni: usize = 0;
        while ni < ec.nodes.len()
            invariant
                eg0 == *eg,
                eg0.wf(),
                n == eg0.classes@.len(),
                roots_ok(eg0, roots@),
                visited@.len() == n,
                (c as int) < n,
                eg0.class_live(c as int),
                visited@[c as int],
                ec == &eg0.classes@[c as int]->0,
                ni <= ec.nodes@.len(),
                stack1.is_prefix_of(stack@),
                stack@.len() + count_false(visited@) == msr1,
                forall|c2: int| #![trigger vs_pre[c2]] 0 <= c2 < n && vs_pre[c2] ==> visited@[c2],
                forall|c2: int|
                    #![trigger visited@[c2]]
                    0 <= c2 < n && visited@[c2] ==> eg0.class_live(c2) && is_reachable(
                        eg0,
                        roots@,
                        c2,
                    ),
                forall|si: int|
                    0 <= si < stack@.len() ==> ((#[trigger] stack@[si]) as int) < n
                        && visited@[stack@[si] as int],
                forall|c2: int|
                    #![trigger visited@[c2]]
                    0 <= c2 < n && visited@[c2] && !on_stack(stack@, c2) && c2 != c as int
                        ==> class_closed(eg0, visited@, c2),
                forall|c2: int|
                    #![trigger root_seed(eg0, roots@, c2)]
                    root_seed(eg0, roots@, c2) && eg0.class_live(c2) ==> visited@[c2],
                forall|ni2: int, ci2: int|
                    #![trigger eg0.class_nodes(c as int)[ni2].children@[ci2]]
                    0 <= ni2 < ni && 0 <= ci2 < eg0.class_nodes(c as int)[ni2].children@.len()
                        ==> visited@[eg0.class_nodes(c as int)[ni2].children@[ci2] as int],
            decreases ec.nodes@.len() - ni,
        {
            let node = &ec.nodes[ni];
            let mut ci: usize = 0;
            while ci < node.children.len()
                invariant
                    eg0 == *eg,
                    eg0.wf(),
                    n == eg0.classes@.len(),
                    roots_ok(eg0, roots@),
                    visited@.len() == n,
                    (c as int) < n,
                    eg0.class_live(c as int),
                    visited@[c as int],
                    ec == &eg0.classes@[c as int]->0,
                    ni < ec.nodes@.len(),
                    node == &ec.nodes@[ni as int],
                    ci <= node.children@.len(),
                    stack1.is_prefix_of(stack@),
                    stack@.len() + count_false(visited@) == msr1,
                    forall|c2: int|
                        #![trigger vs_pre[c2]]
                        0 <= c2 < n && vs_pre[c2] ==> visited@[c2],
                    forall|c2: int|
                        #![trigger visited@[c2]]
                        0 <= c2 < n && visited@[c2] ==> eg0.class_live(c2) && is_reachable(
                            eg0,
                            roots@,
                            c2,
                        ),
                    forall|si: int|
                        0 <= si < stack@.len() ==> ((#[trigger] stack@[si]) as int) < n
                            && visited@[stack@[si] as int],
                    forall|c2: int|
                        #![trigger visited@[c2]]
                        0 <= c2 < n && visited@[c2] && !on_stack(stack@, c2) && c2 != c as int
                            ==> class_closed(eg0, visited@, c2),
                    forall|c2: int|
                        #![trigger root_seed(eg0, roots@, c2)]
                        root_seed(eg0, roots@, c2) && eg0.class_live(c2) ==> visited@[c2],
                    forall|ni2: int, ci2: int|
                        #![trigger eg0.class_nodes(c as int)[ni2].children@[ci2]]
                        0 <= ni2 < ni && 0 <= ci2 < eg0.class_nodes(c as int)[ni2].children@.len()
                            ==> visited@[eg0.class_nodes(c as int)[ni2].children@[ci2] as int],
                    forall|ci2: int|
                        #![trigger node.children@[ci2]]
                        0 <= ci2 < ci ==> visited@[node.children@[ci2] as int],
                decreases node.children@.len() - ci,
            {
                let ch = node.children[ci];
                proof {
                    assert(eg0.class_ok(c as int));
                    assert(eg0.node_ok(c as int, eg0.class_nodes(c as int)[ni as int]));
                    assert(eg0.class_nodes(c as int)[ni as int].children@[ci as int] == ch);
                    assert(eg0.class_live(ch as int));
                }
                if !visited[ch] {
                    let ghost st0 = stack@;
                    let ghost vs0 = visited@;
                    proof {
                        assert(edge(eg0, c as int, ch as int));
                        lemma_reach_extend(eg0, roots@, c as int, ch as int);
                        lemma_count_false_set(visited@, ch as int);
                    }
                    visited.set(ch, true);
                    stack.push(ch);
                    proof {
                        assert(stack@ == st0.push(ch));
                        assert(stack@.take(stack1.len() as int) =~= st0.take(
                            stack1.len() as int,
                        ));
                        assert(stack1.is_prefix_of(stack@));
                        assert(stack@[st0.len() as int] == ch);
                        assert(on_stack(stack@, ch as int));
                        assert forall|c2: int|
                            0 <= c2 < n && visited@[c2] && !on_stack(stack@, c2) && c2
                                != c as int implies class_closed(eg0, visited@, c2) by {
                            assert(c2 != ch as int);
                            assert(vs0[c2]);
                            if on_stack(st0, c2) {
                                lemma_on_stack_push(st0, ch, c2);
                            }
                            assert(!on_stack(st0, c2));
                            assert(class_closed(eg0, vs0, c2));
                            assert forall|ni2: int, ci2: int|
                                #![trigger eg0.class_nodes(c2)[ni2].children@[ci2]]
                                0 <= ni2 < eg0.class_nodes(c2).len() && 0 <= ci2
                                    < eg0.class_nodes(c2)[ni2].children@.len()
                                implies visited@[eg0.class_nodes(c2)[ni2].children@[ci2] as int] by {
                                assert(vs0[eg0.class_nodes(c2)[ni2].children@[ci2] as int]);
                            }
                        }
                    }
                }
                ci = ci + 1;
            }
            ni = ni + 1;
        }
        proof {
            assert(class_closed(eg0, visited@, c as int));
            assert forall|c2: int|
                0 <= c2 < n && visited@[c2] && !on_stack(stack@, c2) implies class_closed(
                eg0,
                visited@,
                c2,
            ) by {
                if c2 != c as int {
                    assert(class_closed(eg0, visited@, c2));
                }
            }
        }
    }
    proof {
        assert forall|c2: int|
            0 <= c2 < n implies (visited@[c2] <==> (eg0.class_live(c2) && is_reachable(
            eg0,
            roots@,
            c2,
        ))) by {
            if eg0.class_live(c2) && is_reachable(eg0, roots@, c2) {
                let p = choose|p: Seq<int>| path_ok(eg0, roots@, p, c2);
                assert(p.last() == c2);
                lemma_closed_covers(eg0, roots@, visited@, p);
            }
        }
    }
}

/// Mark-and-sweep from the roots: drop every e-class not reachable from a
/// root along child edges, drop the hash-cons entries of the dropped
/// classes' e-nodes, trim the surviving classes' parent lists and the
/// per-operator index to surviving classes, and return the number of dropped
/// classes.
#[verifier::rlimit(60)]
pub fn remove_unreachable(egraph: &mut EGraph, roots: &Vec<usize>) -> (count: u32)
    requires
        old(egraph).wf(),
        old(egraph).classes@.len() <= u32::MAX,
        roots_ok(*old(egraph), roots@),
    ensures
        final(egraph).wf(),
        gc_rel(*old(egraph), roots@, *final(egraph), count),
{
    let ghost eg0 = *old(egraph);
    let ghost keepset = reach_set(eg0, roots@);
    let n = egraph.classes.len();
    let mut visited: Vec<bool> = Vec::new();
    let mut i: usize = 0;
    while i < n
        invariant
            i <= n,
            visited@.len() == i,
            forall|k: int| 0 <= k < i ==> !visited@[k],
        decreases n - i,
    {
        visited.push(false);
        i = i + 1;
    }
    gc_mark(egraph, roots, &mut visited);
    let ghost vs = visited@;
    // sweep the class table, trimming survivors' parent lists
    let mut counter: u32 = 0;
    let mut c: usize = 0;
    while c < n
        invariant
            eg0 == *old(egraph),
            eg0.wf(),
            n == eg0.classes@.len(),
            n <= u32::MAX,
            egraph.unionfind == eg0.unionfind,
            egraph.memo@ == eg0.memo@,
            egraph.classes_by_op@ == eg0.classes_by_op@,
            egraph.explanations_enabled == eg0.explanations_enabled,
            egraph.classes@.len() == n,
            visited@ == vs,
            vs.len() == n,
            c <= n,
            forall|c2: int|
                0 <= c2 < n ==> (vs[c2] <==> (eg0.class_live(c2) && is_reachable(
                    eg0,
                    roots@,
                    c2,
                ))),
            counter as int == dropped_upto(eg0, roots@, c as int),
            counter as int <= c as int,
            forall|c2: int|
                #![trigger egraph.classes@[c2]]
                c <= c2 < n ==> egraph.classes@[c2] == eg0.classes@[c2],
            forall|c2: int|
                #![trigger egraph.classes@[c2]]
                0 <= c2 < c ==> {
                    if eg0.class_live(c2) && is_reachable(eg0, roots@, c2) {
                        &&& egraph.classes@[c2] is Some
                        &&& egraph.classes@[c2]->0.id == eg0.classes@[c2]->0.id
                        &&& egraph.classes@[c2]->0.nodes == eg0.classes@[c2]->0.nodes
                        &&& egraph.classes@[c2]->0.parents@ == eg0.class_parents(c2).filter(
                            (|p: usize| is_reachable(eg0, roots@, p as int)),
                        )
                    } else {
                        egraph.classes@[c2] is None
                    }
                },
        decreases n - c,
    {
        let keep = visited[c];
        let is_live = egraph.classes[c].is_some();
        if is_live && keep {
            let mut slot: Option<EClass> = None;
            egraph.classes.set_and_swap(c, &mut slot);
            match slot {
                Some(mut ec) => {
                    let mut newp: Vec<usize> = Vec::new();
                    let mut pi2: usize = 0;
                    while pi2 < ec.parents.len()
                        invariant
                            eg0.wf(),
                            n == eg0.classes@.len(),
                            pi2 <= ec.parents@.len(),
                            visited@ == vs,
                            vs.len() == n,
                            forall|c2: int|
                                0 <= c2 < n ==> (vs[c2] <==> (eg0.class_live(c2)
                                    && is_reachable(eg0, roots@, c2))),
                            newp@ == ec.parents@.take(pi2 as int).filter(
                                (|p: usize| is_reachable(eg0, roots@, p as int)),
                            ),
                        decreases ec.parents@.len() - pi2,
                    {
                        let p = ec.parents[pi2];
                        let keep_p = p < n && visited[p];
                        proof {
                            let pred = (|p2: usize| is_reachable(eg0, roots@, p2 as int));
                            if !keep_p && is_reachable(eg0, roots@, p as int) {
                                lemma_reachable_live(eg0, roots@, p as int);
                                assert(false);
                            }
                            assert(keep_p == pred(p));
                            lemma_filter_push(
                                ec.parents@.take(pi2 as int),
                                ec.parents@[pi2 as int],
                                pred,
                            );
                            assert(ec.parents@.take(pi2 + 1) =~= ec.parents@.take(
                                pi2 as int,
                            ).push(ec.parents@[pi2 as int]));
                        }
                        if keep_p {
                            newp.push(p);
                        }
                        pi2 = pi2 + 1;
                    }
                    proof {
                        assert(ec.parents@.take(ec.parents@.len() as int) =~= ec.parents@);
                    }
                    ec.parents = newp;
                    egraph.classes.set(c, Some(ec));
                },
                None => {
                    proof {
                        assert(false);
                    }
                },
            }
        } else if is_live {
            egraph.classes.set(c, None);
            counter = counter + 1;
        }
        proof {
            assert(dropped_upto(eg0, roots@, c + 1) == dropped_upto(eg0, roots@, c as int) + (
            if eg0.class_live(c as int) && !is_reachable(eg0, roots@, c as int) {
                1int
            } else {
                0int
            }));
        }
        c = c + 1;
    }
    let ghost mclasses = egraph.classes@;
    // sweep the hash-cons: keep the entries of surviving classes
    let mut kept: Vec<(ENode, usize)> = Vec::new();
    let mut mi: usize = 0;
    while mi < egraph.memo.len()
        invariant
            eg0 == *old(egraph),
            eg0.wf(),
            n == eg0.classes@.len(),
            keepset == reach_set(eg0, roots@),
            egraph.memo@.len() == eg0.memo@.len(),
            mi <= eg0.memo@.len(),
            visited@ == vs,
            vs.len() == n,
            forall|c2: int|
                0 <= c2 < n ==> (vs[c2] <==> (eg0.class_live(c2) && is_reachable(
                    eg0,
                    roots@,
                    c2,
                ))),
            forall|mj: int|
                #![trigger egraph.memo@[mj]]
                mi <= mj < eg0.memo@.len() ==> egraph.memo@[mj] == eg0.memo@[mj],
            kept@ + memo_keep(eg0.memo@, keepset, mi as int) == memo_keep(eg0.memo@, keepset, 0),
            egraph.classes@ == mclasses,
            egraph.unionfind == eg0.unionfind,
            egraph.classes_by_op@ == eg0.classes_by_op@,
            egraph.explanations_enabled == eg0.explanations_enabled,
        decreases eg0.memo@.len() - mi,
    {
        let v = egraph.memo[mi].1;
        let keep_e = v < n && visited[v];
        proof {
            assert(eg0.memo_entry_ok(mi as int));
            assert(eg0.class_live(eg0.memo@[mi as int].1 as int));
            assert(keep_e == keepset.contains(eg0.memo@[mi as int].1 as int));
        }
        let mut entry: (ENode, usize) = (ENode { op: 0, children: Vec::new() }, 0);
        egraph.memo.set_and_swap(mi, &mut entry);
        proof {
            assert(entry == eg0.memo@[mi as int]);
        }
        let ghost kept0 = kept@;
        if keep_e {
            kept.push(entry);
            proof {
                assert(memo_keep(eg0.memo@, keepset, mi as int) == seq![eg0.memo@[mi as int]]
                    + memo_keep(eg0.memo@, keepset, mi + 1));
                assert(kept@ =~= kept0 + seq![eg0.memo@[mi as int]]);
                assert((kept0 + seq![eg0.memo@[mi as int]]) + memo_keep(
                    eg0.memo@,
                    keepset,
                    mi + 1,
                ) =~= kept0 + (seq![eg0.memo@[mi as int]] + memo_keep(eg0.memo@, keepset, mi + 1)));
            }
        } else {
            proof {
                assert(memo_keep(eg0.memo@, keepset, mi as int) == memo_keep(
                    eg0.memo@,
                    keepset,
                    mi + 1,
                ));
            }
        }
        mi = mi + 1;
    }
    proof {
        assert(memo_keep(eg0.memo@, keepset, eg0.memo@.len() as int) =~= Seq::<(
            ENode,
            usize,
        )>::empty());
        assert(kept@ + memo_keep(eg0.memo@, keepset, eg0.memo@.len() as int) =~= kept@);
    }
    egraph.memo = kept;
    // trim the per-operator index to surviving classes
    let mut oi: usize = 0;
    while oi < egraph.classes_by_op.len()
        invariant
            eg0 == *old(egraph),
            eg0.wf(),
            n == eg0.classes@.len(),
            keepset == reach_set(eg0, roots@),
            egraph.classes_by_op@.len() == eg0.classes_by_op@.len(),
            oi <= eg0.classes_by_op@.len(),
            visited@ == vs,
            vs.len() == n,
            forall|c2: int|
                0 <= c2 < n ==> (vs[c2] <==> (eg0.class_live(c2) && is_reachable(
                    eg0,
                    roots@,
                    c2,
                ))),
            forall|oj: int|
                #![trigger egraph.classes_by_op@[oj]]
                oi <= oj < eg0.classes_by_op@.len() ==> egraph.classes_by_op@[oj]
                    == eg0.classes_by_op@[oj],
            forall|oj: int|
                #![trigger egraph.classes_by_op@[oj]]
                0 <= oj < oi ==> egraph.classes_by_op@[oj].0 == eg0.classes_by_op@[oj].0
                    && egraph.classes_by_op@[oj].1@ == eg0.classes_by_op@[oj].1@.filter(
                    (|id: usize| is_reachable(eg0, roots@, id as int)),
                ),
            egraph.classes@ == mclasses,
            egraph.memo@ == memo_keep(eg0.memo@, keepset, 0),
            egraph.unionfind == eg0.unionfind,
            egraph.explanations_enabled == eg0.explanations_enabled,
        decreases eg0.classes_by_op@.len() - oi,
    {
        let mut pair: (usize, Vec<usize>) = (0, Vec::new());
        egraph.classes_by_op.set_and_swap(oi, &mut pair);
        proof {
            assert(pair == eg0.classes_by_op@[oi as int]);
        }
        let (op, ids) = pair;
        let mut newids: Vec<usize> = Vec::new();
        let mut ii: usize = 0;
        while ii < ids.len()
            invariant
                eg0.wf(),
                n == eg0.classes@.len(),
                ii <= ids@.len(),
                visited@ == vs,
                vs.len() == n,
                forall|c2: int|
                    0 <= c2 < n ==> (vs[c2] <==> (eg0.class_live(c2) && is_reachable(
                        eg0,
                        roots@,
                        c2,
                    ))),
                newids@ == ids@.take(ii as int).filter(
                    (|id: usize| is_reachable(eg0, roots@, id as int)),
                ),
            decreases ids@.len() - ii,
        {
            let id = ids[ii];
            let keep_id = id < n && visited[id];
            proof {
                let pred = (|id2: usize| is_reachable(eg0, roots@, id2 as int));
                if !keep_id && is_reachable(eg0, roots@, id as int) {
                    lemma_reachable_live(eg0, roots@, id as int);
                    assert(false);
                }
                assert(keep_id == pred(id));
                lemma_filter_push(ids@.take(ii as int), ids@[ii as int], pred);
                assert(ids@.take(ii + 1) =~= ids@.take(ii as int).push(ids@[ii as int]));
            }
            if keep_id {
                newids.push(id);
            }
            ii = ii + 1;
        }
        proof {
            assert(ids@.take(ids@.len() as int) =~= ids@);
        }
        egraph.classes_by_op.set(oi, (op, newids));
        oi = oi + 1;
    }
    proof {
        assert forall|c2: int| egraph.class_live(c2) <==> (eg0.class_live(c2) && is_reachable(
            eg0,
            roots@,
            c2,
        )) by {
            if 0 <= c2 < n {
                assert(egraph.classes@[c2] == mclasses[c2]);
            }
        }
        assert forall|c2: int|
            #![trigger egraph.class_nodes(c2)]
            egraph.class_live(c2) implies {
            &&& egraph.class_nodes(c2) == eg0.class_nodes(c2)
            &&& egraph.classes@[c2]->0.id == eg0.classes@[c2]->0.id
            &&& egraph.class_parents(c2) == eg0.class_parents(c2).filter(
                (|p: usize| is_reachable(eg0, roots@, p as int)),
            )
        } by {
            assert(egraph.classes@[c2] == mclasses[c2]);
        }
        assert(gc_rel(eg0, roots@, *egraph, counter));
        lemma_gc_wf(eg0, roots@, *egraph, counter);
    }
    counter
}


/// The substitution binds every variable the pattern mentions.
pub open spec fn subst_covers(ast: Seq<ENodeOrVar>, subst: Subst) -> bool {
    forall|k: int|
        #![trigger ast[k]]
        0 <= k < ast.len() && ast[k] is Var ==> assoc_get(subst.pairs@, ast[k]->Var_0) is Some
}

/// One retraction step that did not error.
pub open spec fn rtn_ok_rel(eg1: EGraph, ast: Seq<ENodeOrVar>, subst: Subst, eg2: EGraph) -> bool {
    exists|b: bool| rtn_post(eg1, ast, subst, Ok::<bool, String>(b), eg2)
}

/// `eg2` results from `eg1` by retracting, in order, every substitution of
/// the list but the first (the first match is kept as a witness of the
/// rewrite).
pub open spec fn substs_chain(eg1: EGraph, ast: Seq<ENodeOrVar>, substs: Seq<Subst>, eg2: EGraph) -> bool {
    exists|states: Seq<EGraph>|
        #![trigger states[0]]
        {
            let steps: int = if substs.len() == 0 {
                0
            } else {
                substs.len() - 1
            };
            &&& states.len() == steps + 1
            &&& states[0] == eg1
            &&& states.last() == eg2
            &&& forall|si: int|
                0 <= si < steps ==> rtn_ok_rel(
                    #[trigger] states[si],
                    ast,
                    substs[si + 1],
                    states[si + 1],
                )
        }
}

/// One rewrite processed: its applier surfaced a pattern AST and the
/// substitution list was retracted along it.
pub open spec fn rewrite_step(eg1: EGraph, pair: (Rewrite, Vec<Subst>), eg2: EGraph) -> bool {
    &&& pair.0.applier_ast is Some
    &&& substs_chain(eg1, pair.0.applier_ast->0@, pair.1@, eg2)
}

/// `eg2` results from `eg1` by processing every `(rewrite, substitutions)`
/// pair in order.
pub open spec fn undo_chain(eg1: EGraph, pairs: Seq<(Rewrite, Vec<Subst>)>, eg2: EGraph) -> bool {
    exists|states: Seq<EGraph>|
        #![trigger states[0]]
        {
            &&& states.len() == pairs.len() + 1
            &&& states[0] == eg1
            &&& states.last() == eg2
            &&& forall|pi: int|
                0 <= pi < pairs.len() ==> rewrite_step(
                    #[trigger] states[pi],
                    pairs[pi],
                    states[pi + 1],
                )
        }
}

/// A state witnessed as the end of a chain over the first `pi` pairs is the
/// end of a chain over the prefix sequence.
proof fn lemma_prefix_chain(
    eg0: EGraph,
    pairs: Seq<(Rewrite, Vec<Subst>)>,
    pi: int,
    states: Seq<EGraph>,
    cur: EGraph,
)
    requires
        0 <= pi <= pairs.len(),
        states.len() == pi + 1,
        states[0] == eg0,
        states.last() == cur,
        forall|pj: int|
            0 <= pj < pi ==> rewrite_step(#[trigger] states[pj], pairs[pj], states[pj + 1]),
    ensures
        undo_chain(eg0, pairs.take(pi), cur),
{
    let prefix = pairs.take(pi);
    assert(prefix.len() == pi);
    assert forall|pj: int|
        0 <= pj < prefix.len() implies rewrite_step(
        #[trigger] states[pj],
        prefix[pj],
        states[pj + 1],
    ) by {
        assert(prefix[pj] == pairs[pj]);
    }
    assert(states[0] == eg0 && states.last() == cur);
}

/// Every rewrite can be processed to completion: its applier surfaces a
/// pattern, and the pattern is non-empty whenever a retraction will actually
/// be attempted.
pub open spec fn pairs_undoable(pairs: Seq<(Rewrite, Vec<Subst>)>) -> bool {
    forall|pi: int|
        #![trigger pairs[pi]]
        0 <= pi < pairs.len() ==> pairs[pi].0.applier_ast is Some && (pairs[pi].1@.len() <= 1
            || pairs[pi].0.applier_ast->0@.len() > 0)
}

/// A retraction step never unions, removes or adds classes, and never
/// touches the union-find or the explanation flag.
pub proof fn lemma_rtn_preserves(
    eg1: EGraph,
    ast: Seq<ENodeOrVar>,
    subst: Subst,
    r: Result<bool, String>,
    eg2: EGraph,
)
    requires
        eg1.wf(),
        rtn_post(eg1, ast, subst, r, eg2),
    ensures
        eg2.unionfind == eg1.unionfind,
        eg2.classes@.len() == eg1.classes@.len(),
        eg2.explanations_enabled == eg1.explanations_enabled,
        forall|c: int| eg2.class_live(c) <==> eg1.class_live(c),
{
    if eg2 != eg1 {
        let n = ast.len() - 1;
        let buf = resolve_ids(eg1, ast, subst, n);
        if ast.len() > 0 && prefix_ok(eg1, ast, subst, n) && ast[n] is ENode {
            let top = ast[n]->ENode_0;
            let tview = inst_view(top, buf);
            if memo_get(eg1.memo@, tview) is Some {
                let cid = memo_get(eg1.memo@, tview)->0;
                if grounded_spec(eg1, cid as int, Some(tview)) {
                    assert(removed_rel(eg1, cid as int, tview, eg2));
                    lemma_memo_get_entry(eg1.memo@, tview, 0);
                    let wmi = choose|wmi: int|
                        0 <= wmi < eg1.memo@.len() && (#[trigger] eg1.memo@[wmi]).0@ == tview
                            && eg1.memo@[wmi].1 == cid;
                    assert(eg1.memo_entry_ok(wmi));
                    assert(eg1.class_live(cid as int));
                    assert forall|c: int| eg2.class_live(c) <==> eg1.class_live(c) by {
                        if 0 <= c < eg1.classes@.len() && c != cid as int {
                            assert(eg2.classes@[c] == eg1.classes@[c]);
                        }
                    }
                }
            }
        }
    }
}

/// Under a covering substitution, a retraction step can only error on an
/// empty pattern, and then it changes nothing.
proof fn lemma_rtn_err_means_empty(
    eg1: EGraph,
    ast: Seq<ENodeOrVar>,
    subst: Subst,
    m: String,
    eg2: EGraph,
)
    requires
        rtn_post(eg1, ast, subst, Err::<bool, String>(m), eg2),
        subst_covers(ast, subst),
    ensures
        ast.len() == 0,
        eg2 == eg1,
{
    if ast.len() > 0 {
        let n = ast.len() - 1;
        if !prefix_ok(eg1, ast, subst, n) {
            lemma_first_bad_exists(eg1, ast, subst, n);
            let i0 = first_bad_from(eg1, ast, subst, 0, n);
            assert(!child_ok(eg1, ast, subst, i0));
            if ast[i0] is Var {
                assert(assoc_get(subst.pairs@, ast[i0]->Var_0) is Some);
                assert(child_ok(eg1, ast, subst, i0));
            }
        }
    }
}

/// A prefix that is not all good has a first bad element.
proof fn lemma_first_bad_exists(eg: EGraph, ast: Seq<ENodeOrVar>, subst: Subst, k: int)
    requires
        !prefix_ok(eg, ast, subst, k),
        k >= 0,
    ensures
        ({
            let i0 = first_bad_from(eg, ast, subst, 0, k);
            0 <= i0 < k && !child_ok(eg, ast, subst, i0)
        }),
{
    let bad = choose|i: int| 0 <= i < k && !child_ok(eg, ast, subst, i);
    lemma_first_bad_scan(eg, ast, subst, 0, k);
}

proof fn lemma_first_bad_scan(eg: EGraph, ast: Seq<ENodeOrVar>, subst: Subst, j: int, k: int)
    requires
        0 <= j <= k,
        exists|i: int| j <= i < k && !child_ok(eg, ast, subst, i),
    ensures
        ({
            let i0 = first_bad_from(eg, ast, subst, j, k);
            j <= i0 < k && !child_ok(eg, ast, subst, i0)
        }),
    decreases k - j,
{
    if child_ok(eg, ast, subst, j) {
        let i = choose|i: int| j <= i < k && !child_ok(eg, ast, subst, i);
        assert(i > j);
        assert(j + 1 <= i < k && !child_ok(eg, ast, subst, i));
        lemma_first_bad_scan(eg, ast, subst, j + 1, k);
    }
}

/// Undo the given rewrites: for each `(rewrite, substitutions)` pair, retract
/// the top e-node of every substitution but the first, checking after each
/// removal that every root still has a finite term; then garbage-collect
/// everything no longer reachable from the roots. Fails without touching the
/// e-graph when explanations are enabled, and part-way through when a
/// rewrite's applier has no pattern AST or the pattern is empty; on such a
/// part-way failure the e-graph is exactly what the preceding rewrites'
/// retractions produced — the failing rewrite has retracted nothing, no
/// earlier removal is rolled back, and the unreachable sweep has not run.
#[verifier::rlimit(60)]
pub fn undo_rewrites(
    egraph: &mut EGraph,
    rewrites_with_substs: &Vec<(Rewrite, Vec<Subst>)>,
    roots: &Vec<usize>,
) -> (r: Result<(), String>)
    requires
        old(egraph).wf(),
        old(egraph).classes@.len() <= u32::MAX,
        roots_ok(*old(egraph), roots@),
        forall|pi: int|
            #![trigger rewrites_with_substs@[pi]]
            0 <= pi < rewrites_with_substs@.len()
                && rewrites_with_substs@[pi].0.applier_ast is Some ==> pattern_wf(
                rewrites_with_substs@[pi].0.applier_ast->0@,
            ),
        forall|pi: int, si: int|
            #![trigger rewrites_with_substs@[pi].1@[si]]
            0 <= pi < rewrites_with_substs@.len() && 0 <= si
                < rewrites_with_substs@[pi].1@.len() ==> subst_valid(
                *old(egraph),
                rewrites_with_substs@[pi].1@[si],
            ),
        forall|pi: int, si: int|
            #![trigger rewrites_with_substs@[pi].1@[si]]
            0 <= pi < rewrites_with_substs@.len() && 0 <= si
                < rewrites_with_substs@[pi].1@.len()
                && rewrites_with_substs@[pi].0.applier_ast is Some ==> subst_covers(
                rewrites_with_substs@[pi].0.applier_ast->0@,
                rewrites_with_substs@[pi].1@[si],
            ),
    ensures
        final(egraph).wf(),
        old(egraph).explanations_enabled ==> (r matches Err(m) && m@
            == "undoing rewrites with explanations enabled is not supported"@ && *final(egraph)
            == *old(egraph)),
        r is Ok <==> (!old(egraph).explanations_enabled && pairs_undoable(rewrites_with_substs@)),
        r is Err && !old(egraph).explanations_enabled ==> exists|pi: int|
            #![trigger rewrites_with_substs@[pi]]
            {
                &&& 0 <= pi < rewrites_with_substs@.len()
                &&& undo_chain(*old(egraph), rewrites_with_substs@.take(pi), *final(egraph))
                &&& !(rewrites_with_substs@[pi].0.applier_ast is Some && (
                rewrites_with_substs@[pi].1@.len() <= 1
                    || rewrites_with_substs@[pi].0.applier_ast->0@.len() > 0))
            },
        r is Ok ==> exists|mid: EGraph, cnt: u32|
            undo_chain(*old(egraph), rewrites_with_substs@, mid) && #[trigger] gc_rel(
                mid,
                roots@,
                *final(egraph),
                cnt,
            ),
{
    let ghost eg0 = *old(egraph);
    if egraph.are_explanations_enabled() {
        return Err("undoing rewrites with explanations enabled is not supported".to_owned());
    }
    let ghost pairs = rewrites_with_substs@;
    let ghost mut states: Seq<EGraph> = seq![eg0];
    let mut pi: usize = 0;
    while pi < rewrites_with_substs.len()
        invariant
            eg0 == *old(egraph),
            eg0.wf(),
            !eg0.explanations_enabled,
            eg0.classes@.len() <= u32::MAX,
            pairs == rewrites_with_substs@,
            pi <= pairs.len(),
            egraph.wf(),
            egraph.unionfind == eg0.unionfind,
            egraph.classes@.len() == eg0.classes@.len(),
            egraph.explanations_enabled == eg0.explanations_enabled,
            forall|c: int| egraph.class_live(c) <==> eg0.class_live(c),
            roots_ok(eg0, roots@),
            forall|pj: int|
                #![trigger pairs[pj]]
                0 <= pj < pairs.len() && pairs[pj].0.applier_ast is Some ==> pattern_wf(
                    pairs[pj].0.applier_ast->0@,
                ),
            forall|pj: int, sj: int|
                #![trigger pairs[pj].1@[sj]]
                0 <= pj < pairs.len() && 0 <= sj < pairs[pj].1@.len() ==> subst_valid(
                    eg0,
                    pairs[pj].1@[sj],
                ),
            forall|pj: int, sj: int|
                #![trigger pairs[pj].1@[sj]]
                0 <= pj < pairs.len() && 0 <= sj < pairs[pj].1@.len()
                    && pairs[pj].0.applier_ast is Some ==> subst_covers(
                    pairs[pj].0.applier_ast->0@,
                    pairs[pj].1@[sj],
                ),
            forall|pj: int|
                #![trigger pairs[pj]]
                0 <= pj < pi ==> pairs[pj].0.applier_ast is Some && (pairs[pj].1@.len() <= 1
                    || pairs[pj].0.applier_ast->0@.len() > 0),
            states.len() == pi + 1,
            states[0] == eg0,
            states.last() == *egraph,
            forall|pj: int|
                0 <= pj < pi ==> rewrite_step(#[trigger] states[pj], pairs[pj], states[pj + 1]),
        decreases pairs.len() - pi,
    {
        let pair = &rewrites_with_substs[pi];
        let ast = match &pair.0.applier_ast {
            Some(ast) => ast,
            None => {
                proof {
                    assert(!pairs_undoable(pairs));
                    lemma_prefix_chain(eg0, pairs, pi as int, states, *egraph);
                }
                return Err("applier must support get_pattern_ast".to_owned());
            },
        };
        let ghost eg_r = *egraph;
        let ghost mut istates: Seq<EGraph> = seq![eg_r];
        let mut si: usize = 1;
        while si < pair.1.len()
            invariant
                eg0 == *old(egraph),
                eg0.wf(),
                !eg0.explanations_enabled,
                eg0.classes@.len() <= u32::MAX,
                pairs == rewrites_with_substs@,
                pi < pairs.len(),
                pair == &rewrites_with_substs@[pi as int],
                pair.0.applier_ast is Some,
                ast == &pair.0.applier_ast->0,
                pattern_wf(ast@),
                1 <= si,
                pair.1@.len() > 0 ==> si <= pair.1@.len(),
                pair.1@.len() == 0 ==> si == 1,
                egraph.wf(),
                egraph.unionfind == eg0.unionfind,
                egraph.classes@.len() == eg0.classes@.len(),
                egraph.explanations_enabled == eg0.explanations_enabled,
                forall|c: int| egraph.class_live(c) <==> eg0.class_live(c),
                roots_ok(eg0, roots@),
                forall|sj: int|
                    #![trigger pair.1@[sj]]
                    0 <= sj < pair.1@.len() ==> subst_valid(eg0, pair.1@[sj]) && subst_covers(
                        ast@,
                        pair.1@[sj],
                    ),
                states.len() == pi + 1,
                states[0] == eg0,
                states.last() == eg_r,
                forall|pj: int|
                    0 <= pj < pi ==> rewrite_step(
                        #[trigger] states[pj],
                        pairs[pj],
                        states[pj + 1],
                    ),
                istates.len() == si,
                istates[0] == eg_r,
                istates.last() == *egraph,
                forall|sj: int|
                    0 <= sj < si - 1 ==> rtn_ok_rel(
                        #[trigger] istates[sj],
                        ast@,
                        pair.1@[sj + 1],
                        istates[sj + 1],
                    ),
            decreases pair.1@.len() - si,
    {
            let ghost before = *egraph;
            let subst = &pair.1[si];
            proof {
                assert(subst == &pair.1@[si as int]);
                assert(subst_valid(eg0, pair.1@[si as int]));
                assert forall|pi2: int|
                    0 <= pi2 < subst.pairs@.len() implies egraph.class_live(
                    (#[trigger] subst.pairs@[pi2]).1 as int,
                ) by {
                    assert(eg0.class_live(pair.1@[si as int].pairs@[pi2].1 as int));
                }
            }
            let res = remove_top_enode(egraph, ast, subst);
            match res {
                Ok(removed) => {
                    if removed {
                        // every root must still extract a finite term
                        let ghost snap = *egraph;
                        let mut ri: usize = 0;
                        while ri < roots.len()
                            invariant
                                *egraph == snap,
                                snap.wf(),
                                roots_ok(eg0, roots@),
                                egraph.classes@.len() == eg0.classes@.len(),
                                egraph.unionfind == eg0.unionfind,
                                ri <= roots@.len(),
                            decreases roots@.len() - ri,
                        {
                            let root = roots[ri];
                            proof {
                                assert(root_ok(eg0, roots@[ri as int]));
                            }
                            let rc = match egraph.find(root) {
                                Some(rc) => rc,
                                None => {
                                    proof {
                                        assert(false);
                                    }
                                    0
                                },
                            };
                            let _has_term = grounded(egraph, rc, None);
                            ri = ri + 1;
                        }
                    }
                    proof {
                        let ghost sidx = si as int;
                        assert(rtn_post(
                            before,
                            ast@,
                            pair.1@[sidx],
                            Ok::<bool, String>(removed),
                            *egraph,
                        ));
                        lemma_rtn_preserves(
                            before,
                            ast@,
                            pair.1@[sidx],
                            Ok::<bool, String>(removed),
                            *egraph,
                        );
                        assert(rtn_ok_rel(before, ast@, pair.1@[sidx], *egraph));
                        let ist0 = istates;
                        istates = istates.push(*egraph);
                        assert(istates[sidx - 1] == before);
                        assert(istates[sidx] == *egraph);
                        assert forall|sj: int|
                            0 <= sj < sidx implies rtn_ok_rel(
                            #[trigger] istates[sj],
                            ast@,
                            pair.1@[sj + 1],
                            istates[sj + 1],
                        ) by {
                            if sj < sidx - 1 {
                                assert(istates[sj] == ist0[sj]);
                                assert(istates[sj + 1] == ist0[sj + 1]);
                            }
                        }
                    }
                },
                Err(e) => {
                    proof {
                        lemma_rtn_err_means_empty(before, ast@, pair.1@[si as int], e, *egraph);
                        assert(pair.1@.len() > 1);
                        assert(!(pairs[pi as int].1@.len() <= 1
                            || pairs[pi as int].0.applier_ast->0@.len() > 0));
                        assert(!pairs_undoable(pairs));
                        // an empty pattern fails on the very first retraction,
                        // so this rewrite has mutated nothing yet
                        if si > 1 {
                            assert(rtn_ok_rel(istates[0], ast@, pair.1@[1], istates[1]));
                            let b = choose|b: bool|
                                rtn_post(
                                    istates[0],
                                    ast@,
                                    pair.1@[1],
                                    Ok::<bool, String>(b),
                                    istates[1],
                                );
                            assert(false);
                        }
                        assert(istates.last() == istates[0]);
                        assert(*egraph == eg_r);
                        lemma_prefix_chain(eg0, pairs, pi as int, states, *egraph);
                    }
                    return Err(e);
                },
            }
            si = si + 1;
        }
        proof {
            let steps: int = if pair.1@.len() == 0 {
                0
            } else {
                pair.1@.len() - 1
            };
            assert(istates.len() == steps + 1);
            assert(istates[0] == eg_r);
            assert(istates.last() == *egraph);
            assert(substs_chain(eg_r, ast@, pair.1@, *egraph));
            assert(rewrite_step(eg_r, pairs[pi as int], *egraph));
            if pair.1@.len() > 1 {
                assert(rtn_ok_rel(istates[0], ast@, pair.1@[1], istates[1]));
                let b = choose|b: bool|
                    rtn_post(istates[0], ast@, pair.1@[1], Ok::<bool, String>(b), istates[1]);
                assert(ast@.len() > 0);
            }
            let st0 = states;
            states = states.push(*egraph);
            assert(states[pi as int] == eg_r);
            assert forall|pj: int|
                0 <= pj < pi as int + 1 implies rewrite_step(
                #[trigger] states[pj],
                pairs[pj],
                states[pj + 1],
            ) by {
                if pj < pi as int {
                    assert(states[pj] == st0[pj]);
                    assert(states[pj + 1] == st0[pj + 1]);
                }
            }
        }
        pi = pi + 1;
    }
    let ghost pre_gc = *egraph;
    proof {
        assert forall|ri: int| 0 <= ri < roots@.len() implies root_ok(
            *egraph,
            #[trigger] roots@[ri],
        ) by {
            assert(root_ok(eg0, roots@[ri]));
            assert(egraph.unionfind.root_of(roots@[ri] as int) == eg0.unionfind.root_of(
                roots@[ri] as int,
            ));
        }
    }
    let dropped = remove_unreachable(egraph, roots);
    proof {
        assert(undo_chain(eg0, pairs, pre_gc));
        assert(gc_rel(pre_gc, roots@, *egraph, dropped));
    }
    Ok(())
}


/// Every hash-cons entry of a well-formed e-graph names a live e-class.
pub proof fn lemma_memo_classes_live(eg: EGraph)
    requires
        eg.wf(),
    ensures
        forall|mi: int|
            0 <= mi < eg.memo@.len() ==> eg.class_live((#[trigger] eg.memo@[mi]).1 as int),
{
    assert forall|mi: int|
        0 <= mi < eg.memo@.len() implies eg.class_live((#[trigger] eg.memo@[mi]).1 as int) by {
        assert(eg.memo_entry_ok(mi));
    }
}

/// A live path survives garbage collection: its classes were all reachable,
/// so they are kept with their e-nodes.
proof fn lemma_path_transfer(eg1: EGraph, roots: Seq<usize>, eg2: EGraph, count: u32, p: Seq<int>)
    requires
        eg1.wf(),
        gc_rel(eg1, roots, eg2, count),
        path_ok(eg1, roots, p, p.last()),
    ensures
        path_ok(eg2, roots, p, p.last()),
{
    assert forall|k: int| 0 <= k < p.len() implies eg2.class_live(#[trigger] p[k]) by {
        let q = p.take(k + 1);
        assert(q.last() == p[k]);
        assert(q[0] == p[0]);
        assert forall|m: int| 0 <= m < q.len() implies eg1.class_live(#[trigger] q[m]) by {
            assert(q[m] == p[m]);
        }
        assert forall|m: int| 0 <= m < q.len() - 1 implies edge(eg1, #[trigger] q[m], q[m + 1]) by {
            assert(q[m] == p[m] && q[m + 1] == p[m + 1]);
        }
        assert(path_ok(eg1, roots, q, p[k]));
        assert(is_reachable(eg1, roots, p[k]));
    }
    assert(root_seed(eg2, roots, p[0])) by {
        let ri = choose|ri: int|
            0 <= ri < roots.len() && {
                let r = eg1.unionfind.root_of((#[trigger] roots[ri]) as int);
                r is Some && r->0 as int == p[0]
            };
        assert(eg2.unionfind.root_of(roots[ri] as int) == eg1.unionfind.root_of(
            roots[ri] as int,
        ));
    }
    assert forall|k: int| 0 <= k < p.len() - 1 implies edge(eg2, #[trigger] p[k], p[k + 1]) by {
        let (ni, ci) = choose|ni: int, ci: int|
            #![trigger eg1.class_nodes(p[k])[ni].children@[ci]]
            0 <= ni < eg1.class_nodes(p[k]).len() && 0 <= ci < eg1.class_nodes(
                p[k],
            )[ni].children@.len() && eg1.class_nodes(p[k])[ni].children@[ci] as int == p[k + 1];
        assert(eg2.class_nodes(p[k]) == eg1.class_nodes(p[k]));
        assert(eg2.class_nodes(p[k])[ni].children@[ci] as int == p[k + 1]);
    }
}

/// After garbage collection, every class that is left is reachable from one
/// of the roots inside the collected e-graph itself.
pub proof fn lemma_gc_reachable(eg1: EGraph, roots: Seq<usize>, eg2: EGraph, count: u32)
    requires
        eg1.wf(),
        gc_rel(eg1, roots, eg2, count),
    ensures
        forall|c: int| #[trigger] eg2.class_live(c) ==> is_reachable(eg2, roots, c),
{
    assert forall|c: int| #[trigger] eg2.class_live(c) implies is_reachable(eg2, roots, c) by {
        assert(eg1.class_live(c) && is_reachable(eg1, roots, c));
        let p = choose|p: Seq<int>| path_ok(eg1, roots, p, c);
        lemma_path_transfer(eg1, roots, eg2, count, p);
        assert(path_ok(eg2, roots, p, c));
    }
}

proof fn lemma_no_drops(eg: EGraph, roots: Seq<usize>, k: int)
    requires
        forall|c: int| #[trigger] eg.class_live(c) ==> is_reachable(eg, roots, c),
    ensures
        dropped_upto(eg, roots, k) == 0,
    decreases k,
{
    if k > 0 {
        lemma_no_drops(eg, roots, k - 1);
    }
}

/// Garbage collection is idempotent: a second sweep with the same roots
/// finds every surviving class reachable and so drops nothing, and the same
/// roots are still usable.
pub proof fn lemma_gc_idempotent(eg1: EGraph, roots: Seq<usize>, eg2: EGraph, count: u32)
    requires
        eg1.wf(),
        roots_ok(eg1, roots),
        gc_rel(eg1, roots, eg2, count),
    ensures
        roots_ok(eg2, roots),
        dropped_upto(eg2, roots, eg2.classes@.len() as int) == 0,
{
    lemma_gc_reachable(eg1, roots, eg2, count);
    lemma_no_drops(eg2, roots, eg2.classes@.len() as int);
    assert forall|ri: int| 0 <= ri < roots.len() implies root_ok(eg2, #[trigger] roots[ri]) by {
        assert(root_ok(eg1, roots[ri]));
        let rc = eg1.unionfind.root_of(roots[ri] as int)->0 as int;
        assert(eg2.unionfind.root_of(roots[ri] as int) == eg1.unionfind.root_of(
            roots[ri] as int,
        ));
        let p = seq![rc];
        assert(p.last() == rc);
        assert(root_seed(eg1, roots, rc));
        assert(path_ok(eg1, roots, p, rc));
        assert(is_reachable(eg1, roots, rc));
        assert(eg2.class_live(rc));
    }
}


/// When the hash-cons changed only by unbinding one key, any resolution that
/// still succeeds resolves exactly as before.
proof fn lemma_second_resolve(
    eg1: EGraph,
    eg2: EGraph,
    kr: (usize, Seq<usize>),
    ast: Seq<ENodeOrVar>,
    subst: Subst,
    i: int,
)
    requires
        0 <= i <= ast.len(),
        memo_get(eg2.memo@, kr) is None,
        forall|k2: (usize, Seq<usize>)|
            k2 != kr ==> #[trigger] memo_get(eg2.memo@, k2) == memo_get(eg1.memo@, k2),
        prefix_ok(eg2, ast, subst, i),
    ensures
        resolve_ids(eg2, ast, subst, i) == resolve_ids(eg1, ast, subst, i),
        prefix_ok(eg1, ast, subst, i),
    decreases i,
{
    if i > 0 {
        assert(prefix_ok(eg2, ast, subst, i - 1)) by {
            assert forall|m: int| 0 <= m < i - 1 implies child_ok(eg2, ast, subst, m) by {}
        }
        lemma_second_resolve(eg1, eg2, kr, ast, subst, i - 1);
        let buf = resolve_ids(eg1, ast, subst, i - 1);
        assert(resolve_ids(eg2, ast, subst, i - 1) == buf);
        assert(child_ok(eg2, ast, subst, i - 1));
        match ast[i - 1] {
            ENodeOrVar::Var(_) => {
                assert(resolve_one(eg2, ast, subst, i - 1, buf) == resolve_one(
                    eg1,
                    ast,
                    subst,
                    i - 1,
                    buf,
                ));
            },
            ENodeOrVar::ENode(en) => {
                let view = inst_view(en, buf);
                assert(memo_get(eg2.memo@, view) is Some);
                assert(view != kr);
                assert(memo_get(eg2.memo@, view) == memo_get(eg1.memo@, view));
            },
        }
    }
}

/// Retracting the same top e-node twice is idempotent: after a successful
/// removal, running the very same retraction again reports a benign skip
/// (the hash-cons entry is gone) and leaves the e-graph untouched.
pub proof fn lemma_second_retraction_is_noop(
    eg1: EGraph,
    ast: Seq<ENodeOrVar>,
    subst: Subst,
    eg2: EGraph,
    r2: Result<bool, String>,
    eg3: EGraph,
)
    requires
        eg1.wf(),
        rtn_post(eg1, ast, subst, Ok::<bool, String>(true), eg2),
        rtn_post(eg2, ast, subst, r2, eg3),
    ensures
        eg3 == eg2,
        r2 == Ok::<bool, String>(false),
{
    let n = ast.len() - 1;
    assert(ast.len() > 0);
    assert(prefix_ok(eg1, ast, subst, n));
    assert(ast[n] is ENode);
    let top = ast[n]->ENode_0;
    let buf1 = resolve_ids(eg1, ast, subst, n);
    let kr = inst_view(top, buf1);
    assert(memo_get(eg1.memo@, kr) is Some);
    let cid = memo_get(eg1.memo@, kr)->0;
    assert(grounded_spec(eg1, cid as int, Some(kr)));
    assert(removed_rel(eg1, cid as int, kr, eg2));
    lemma_memo_get_entry(eg1.memo@, kr, 0);
    let wmi = choose|wmi: int|
        0 <= wmi < eg1.memo@.len() && (#[trigger] eg1.memo@[wmi]).0@ == kr && eg1.memo@[wmi].1
            == cid;
    assert(eg1.memo_entry_ok(wmi));
    lemma_remove_node_wf(eg1, eg2, cid as int, kr);
    assert(memo_get(eg2.memo@, kr) is None);
    if !prefix_ok(eg2, ast, subst, n) {
        lemma_first_bad_exists(eg2, ast, subst, n);
        let i0 = first_bad_from(eg2, ast, subst, 0, n);
        assert(!child_ok(eg2, ast, subst, i0));
        if ast[i0] is Var {
            // a variable binding does not depend on the e-graph
            assert(child_ok(eg1, ast, subst, i0));
            assert(resolve_one(eg2, ast, subst, i0, resolve_ids(eg2, ast, subst, i0))
                == assoc_get(subst.pairs@, ast[i0]->Var_0));
            assert(resolve_one(eg1, ast, subst, i0, resolve_ids(eg1, ast, subst, i0))
                == assoc_get(subst.pairs@, ast[i0]->Var_0));
            assert(false);
        }
        assert(r2 == Ok::<bool, String>(false) && eg3 == eg2);
    } else {
        lemma_second_resolve(eg1, eg2, kr, ast, subst, n);
        assert(resolve_ids(eg2, ast, subst, n) == buf1);
        assert(inst_view(top, resolve_ids(eg2, ast, subst, n)) == kr);
        assert(r2 == Ok::<bool, String>(false) && eg3 == eg2);
    }
}


/// A filter that keeps every element is the identity.
proof fn lemma_filter_all<A>(s: Seq<A>, pred: spec_fn(A) -> bool)
    requires
        forall|i: int| 0 <= i < s.len() ==> pred(#[trigger] s[i]),
    ensures
        s.filter(pred) == s,
    decreases s.len(),
{
    if s.len() > 0 {
        let rest = s.drop_last();
        assert forall|i: int| 0 <= i < rest.len() implies pred(#[trigger] rest[i]) by {
            assert(rest[i] == s[i]);
        }
        lemma_filter_all(rest, pred);
        lemma_filter_push(rest, s.last(), pred);
        assert(rest.push(s.last()) =~= s);
    }
}

/// Keeping every memo entry is the identity.
proof fn lemma_memo_keep_all(m: Seq<(ENode, usize)>, keep: Set<int>, i: int)
    requires
        0 <= i <= m.len(),
        forall|j: int| i <= j < m.len() ==> keep.contains((#[trigger] m[j]).1 as int),
    ensures
        memo_keep(m, keep, i) == m.subrange(i, m.len() as int),
    decreases m.len() - i,
{
    if i == m.len() {
        assert(memo_keep(m, keep, i) =~= m.subrange(i, m.len() as int));
    } else {
        lemma_memo_keep_all(m, keep, i + 1);
        assert(keep.contains(m[i].1 as int));
        assert(memo_keep(m, keep, i) == seq![m[i]] + m.subrange(i + 1, m.len() as int));
        assert(seq![m[i]] + m.subrange(i + 1, m.len() as int) =~= m.subrange(
            i,
            m.len() as int,
        ));
    }
}

/// A class reachable before the sweep is reachable after it, along the same
/// path.
proof fn lemma_reach_again(eg1: EGraph, roots: Seq<usize>, eg2: EGraph, count: u32, p: int)
    requires
        eg1.wf(),
        gc_rel(eg1, roots, eg2, count),
        is_reachable(eg1, roots, p),
    ensures
        is_reachable(eg2, roots, p),
{
    let q = choose|q: Seq<int>| path_ok(eg1, roots, q, p);
    lemma_path_transfer(eg1, roots, eg2, count, q);
}

/// Ids that were all reachable before the sweep pass the second sweep's
/// filter unchanged.
proof fn lemma_ids_refiltered(
    eg1: EGraph,
    roots: Seq<usize>,
    eg2: EGraph,
    count: u32,
    ids: Seq<usize>,
)
    requires
        eg1.wf(),
        gc_rel(eg1, roots, eg2, count),
        forall|pi: int|
            0 <= pi < ids.len() ==> is_reachable(eg1, roots, (#[trigger] ids[pi]) as int),
    ensures
        ids.filter((|p: usize| is_reachable(eg2, roots, p as int))) == ids,
{
    let pred2 = (|p: usize| is_reachable(eg2, roots, p as int));
    assert forall|pi: int| 0 <= pi < ids.len() implies pred2(#[trigger] ids[pi]) by {
        lemma_reach_again(eg1, roots, eg2, count, ids[pi] as int);
    }
    lemma_filter_all(ids, pred2);
}

/// A second sweep with the same roots drops nothing.
pub proof fn lemma_gc_second_count(
    eg1: EGraph,
    roots: Seq<usize>,
    eg2: EGraph,
    count: u32,
    eg3: EGraph,
    count2: u32,
)
    requires
        eg1.wf(),
        roots_ok(eg1, roots),
        gc_rel(eg1, roots, eg2, count),
        gc_rel(eg2, roots, eg3, count2),
    ensures
        count2 == 0,
{
    lemma_gc_idempotent(eg1, roots, eg2, count);
}

/// A second sweep keeps every class of the first sweep, with the same
/// e-nodes, id and parent list.
pub proof fn lemma_gc_second_classes(
    eg1: EGraph,
    roots: Seq<usize>,
    eg2: EGraph,
    count: u32,
    eg3: EGraph,
    count2: u32,
)
    requires
        eg1.wf(),
        gc_rel(eg1, roots, eg2, count),
        gc_rel(eg2, roots, eg3, count2),
    ensures
        forall|c: int| eg3.class_live(c) <==> eg2.class_live(c),
        forall|c: int|
            #![trigger eg3.class_nodes(c)]
            eg3.class_live(c) ==> eg3.class_nodes(c) == eg2.class_nodes(c)
                && eg3.classes@[c]->0.id == eg2.classes@[c]->0.id && eg3.class_parents(c)
                == eg2.class_parents(c),
{
    lemma_gc_reachable(eg1, roots, eg2, count);
    let pred1 = (|p: usize| is_reachable(eg1, roots, p as int));
    assert forall|c: int| eg3.class_live(c) <==> eg2.class_live(c) by {
        if eg2.class_live(c) {
            assert(is_reachable(eg2, roots, c));
        }
    }
    assert forall|c: int|
        #![trigger eg3.class_nodes(c)]
        eg3.class_live(c) implies eg3.class_nodes(c) == eg2.class_nodes(c) && eg3.classes@[c]->0.id
        == eg2.classes@[c]->0.id && eg3.class_parents(c) == eg2.class_parents(c) by {
        assert(eg2.class_live(c) && is_reachable(eg2, roots, c));
        assert(eg2.class_nodes(c) == eg1.class_nodes(c));
        assert(eg2.class_parents(c) == eg1.class_parents(c).filter(pred1));
        assert forall|pi: int|
            0 <= pi < eg2.class_parents(c).len() implies is_reachable(
            eg1,
            roots,
            (#[trigger] eg2.class_parents(c)[pi]) as int,
        ) by {
            Seq::lemma_filter_pred(eg1.class_parents(c), pred1, pi);
        }
        lemma_ids_refiltered(eg1, roots, eg2, count, eg2.class_parents(c));
    }
}

/// A second sweep keeps the hash-cons exactly.
pub proof fn lemma_gc_second_memo(
    eg1: EGraph,
    roots: Seq<usize>,
    eg2: EGraph,
    count: u32,
    eg3: EGraph,
    count2: u32,
)
    requires
        eg1.wf(),
        gc_rel(eg1, roots, eg2, count),
        gc_rel(eg2, roots, eg3, count2),
    ensures
        eg3.memo@ == eg2.memo@,
{
    lemma_gc_wf(eg1, roots, eg2, count);
    lemma_gc_reachable(eg1, roots, eg2, count);
    assert(eg3.memo@ == memo_keep(eg2.memo@, reach_set(eg2, roots), 0));
    assert forall|j: int|
        0 <= j < eg2.memo@.len() implies reach_set(eg2, roots).contains(
        (#[trigger] eg2.memo@[j]).1 as int,
    ) by {
        assert(eg2.memo_entry_ok(j));
        assert(eg2.class_live(eg2.memo@[j].1 as int));
        assert(is_reachable(eg2, roots, eg2.memo@[j].1 as int));
    }
    lemma_memo_keep_all(eg2.memo@, reach_set(eg2, roots), 0);
    assert(eg2.memo@.subrange(0, eg2.memo@.len() as int) =~= eg2.memo@);
}

/// A second sweep keeps the per-operator index exactly.
pub proof fn lemma_gc_second_ops(
    eg1: EGraph,
    roots: Seq<usize>,
    eg2: EGraph,
    count: u32,
    eg3: EGraph,
    count2: u32,
)
    requires
        eg1.wf(),
        gc_rel(eg1, roots, eg2, count),
        gc_rel(eg2, roots, eg3, count2),
    ensures
        eg3.classes_by_op@.len() == eg2.classes_by_op@.len(),
        forall|oi: int|
            #![trigger eg3.classes_by_op@[oi]]
            0 <= oi < eg2.classes_by_op@.len() ==> eg3.classes_by_op@[oi].0
                == eg2.classes_by_op@[oi].0 && eg3.classes_by_op@[oi].1@
                == eg2.classes_by_op@[oi].1@,
{
    let pred1 = (|p: usize| is_reachable(eg1, roots, p as int));
    assert forall|oi: int|
        #![trigger eg3.classes_by_op@[oi]]
        0 <= oi < eg2.classes_by_op@.len() implies eg3.classes_by_op@[oi].0
        == eg2.classes_by_op@[oi].0 && eg3.classes_by_op@[oi].1@ == eg2.classes_by_op@[oi].1@ by {
        assert(eg2.classes_by_op@[oi].1@ == eg1.classes_by_op@[oi].1@.filter(pred1));
        assert forall|pi: int|
            0 <= pi < eg2.classes_by_op@[oi].1@.len() implies is_reachable(
            eg1,
            roots,
            (#[trigger] eg2.classes_by_op@[oi].1@[pi]) as int,
        ) by {
            Seq::lemma_filter_pred(eg1.classes_by_op@[oi].1@, pred1, pi);
        }
        lemma_ids_refiltered(eg1, roots, eg2, count, eg2.classes_by_op@[oi].1@);
    }
}

/// Walking any live path from a seed stays inside a set that contains the
/// seeds and is closed under child edges.
proof fn lemma_closed_set_covers_path(eg: EGraph, roots: Seq<usize>, s: Set<int>, p: Seq<int>)
    requires
        forall|c2: int|
            #![trigger root_seed(eg, roots, c2)]
            root_seed(eg, roots, c2) && eg.class_live(c2) ==> s.contains(c2),
        forall|a: int, b: int|
            #![trigger s.contains(a), edge(eg, a, b)]
            s.contains(a) && edge(eg, a, b) ==> s.contains(b),
        path_ok(eg, roots, p, p.last()),
    ensures
        s.contains(p.last()),
    decreases p.len(),
{
    if p.len() == 1 {
        assert(eg.class_live(p[0]));
    } else {
        let p1 = p.drop_last();
        assert(p1[0] == p[0]);
        assert forall|k: int| 0 <= k < p1.len() implies eg.class_live(#[trigger] p1[k]) by {
            assert(p1[k] == p[k]);
        }
        assert forall|k: int| 0 <= k < p1.len() - 1 implies edge(eg, #[trigger] p1[k], p1[k + 1]) by {
            assert(p1[k] == p[k] && p1[k + 1] == p[k + 1]);
        }
        assert(path_ok(eg, roots, p1, p1.last()));
        lemma_closed_set_covers_path(eg, roots, s, p1);
        assert(edge(eg, p[p.len() - 2], p[p.len() - 1]));
        assert(s.contains(p1.last()));
    }
}

/// A class outside a set that contains every seed class and is closed under
/// child edges is not reachable from the roots. This is how unreachability
/// of a concrete class is established: exhibit the closed set of survivors.
pub proof fn lemma_unreachable_outside_closed(eg: EGraph, roots: Seq<usize>, s: Set<int>, c: int)
    requires
        forall|c2: int|
            #![trigger root_seed(eg, roots, c2)]
            root_seed(eg, roots, c2) && eg.class_live(c2) ==> s.contains(c2),
        forall|a: int, b: int|
            #![trigger s.contains(a), edge(eg, a, b)]
            s.contains(a) && edge(eg, a, b) ==> s.contains(b),
        !s.contains(c),
    ensures
        !is_reachable(eg, roots, c),
{
    if is_reachable(eg, roots, c) {
        let p = choose|p: Seq<int>| path_ok(eg, roots, p, c);
        assert(p.last() == c);
        lemma_closed_set_covers_path(eg, roots, s, p);
    }
}

} // verus!
