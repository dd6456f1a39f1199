//! Finite terms of an e-graph: what it means for an e-class to still contain
//! an extractable (finite, cycle-free) term, and why the grounded check and
//! the retraction steps preserve it.

use vstd::prelude::*;
use crate::egraph::EGraph;
use crate::undo::{
    edge, excluded_matches, grounded_spec, gs_children, gs_class, gs_nodes, inst_view,
    is_reachable, lemma_memo_get_entry, lemma_rtn_preserves, node_find, prefix_ok, removed_rel,
    resolve_ids, rtn_post, ENodeOrVar, Subst,
};
use crate::egraph::memo_get;

verus! {

/// Class `c` holds a term of depth below `fuel` none of whose e-nodes has
/// the excluded shape `ex`.
pub open spec fn has_term_av(
    eg: EGraph,
    c: int,
    ex: Option<(usize, Seq<usize>)>,
    fuel: nat,
) -> bool
    decreases fuel,
{
    fuel > 0 && eg.class_live(c) && exists|ni: int|
        0 <= ni < eg.class_nodes(c).len() && {
            let n = #[trigger] eg.class_nodes(c)[ni];
            !excluded_matches(ex, n) && forall|ci: int|
                0 <= ci < n.children@.len() ==> has_term_av(
                    eg,
                    #[trigger] n.children@[ci] as int,
                    ex,
                    (fuel - 1) as nat,
                )
        }
}

/// Class `c` holds some finite term: a size-based extractor succeeds on it.
pub open spec fn extractable(eg: EGraph, c: int) -> bool {
    exists|fuel: nat| has_term_av(eg, c, None, fuel)
}

/// More fuel never hurts.
pub proof fn lemma_term_mono(eg: EGraph, c: int, ex: Option<(usize, Seq<usize>)>, f1: nat, f2: nat)
    requires
        has_term_av(eg, c, ex, f1),
        f1 <= f2,
    ensures
        has_term_av(eg, c, ex, f2),
    decreases f1,
{
    let ni = choose|ni: int|
        0 <= ni < eg.class_nodes(c).len() && {
            let n = #[trigger] eg.class_nodes(c)[ni];
            !excluded_matches(ex, n) && forall|ci: int|
                0 <= ci < n.children@.len() ==> has_term_av(
                    eg,
                    #[trigger] n.children@[ci] as int,
                    ex,
                    (f1 - 1) as nat,
                )
        };
    let n = eg.class_nodes(c)[ni];
    assert forall|ci: int|
        0 <= ci < n.children@.len() implies has_term_av(
        eg,
        #[trigger] n.children@[ci] as int,
        ex,
        (f2 - 1) as nat,
    ) by {
        lemma_term_mono(eg, n.children@[ci] as int, ex, (f1 - 1) as nat, (f2 - 1) as nat);
    }
}

/// An exclusion only restricts: dropping it keeps the term.
pub proof fn lemma_term_drop_exclusion(
    eg: EGraph,
    c: int,
    ex: Option<(usize, Seq<usize>)>,
    fuel: nat,
)
    requires
        has_term_av(eg, c, ex, fuel),
    ensures
        has_term_av(eg, c, None, fuel),
    decreases fuel,
{
    let ni = choose|ni: int|
        0 <= ni < eg.class_nodes(c).len() && {
            let n = #[trigger] eg.class_nodes(c)[ni];
            !excluded_matches(ex, n) && forall|ci: int|
                0 <= ci < n.children@.len() ==> has_term_av(
                    eg,
                    #[trigger] n.children@[ci] as int,
                    ex,
                    (fuel - 1) as nat,
                )
        };
    let n = eg.class_nodes(c)[ni];
    assert(!excluded_matches(None, n));
    assert forall|ci: int|
        0 <= ci < n.children@.len() implies has_term_av(
        eg,
        #[trigger] n.children@[ci] as int,
        None,
        (fuel - 1) as nat,
    ) by {
        lemma_term_drop_exclusion(eg, n.children@[ci] as int, ex, (fuel - 1) as nat);
    }
}

/// Every child class from position `ci` on holds a term within fuel `f`.
pub open spec fn children_have_terms(
    eg: EGraph,
    chs: Seq<usize>,
    ex: Option<(usize, Seq<usize>)>,
    ci: int,
    f: nat,
) -> bool {
    forall|cj: int| ci <= cj < chs.len() ==> has_term_av(eg, #[trigger] chs[cj] as int, ex, f)
}

/// Soundness of the grounded search over one class: a `true` answer exhibits
/// a finite term avoiding the excluded shape.
proof fn lemma_gs_class_sound(
    eg: EGraph,
    c: int,
    ex: Option<(usize, Seq<usize>)>,
    v: Set<int>,
    fuel: nat,
)
    requires
        gs_class(eg, c, ex, v, fuel).0,
    ensures
        exists|f: nat| has_term_av(eg, c, ex, f),
    decreases fuel, 2int, 0int,
{
    if eg.class_live(c) && !v.contains(c) {
        if crate::undo::has_leaf_besides(eg, c, ex) {
            let ni = choose|ni: int|
                0 <= ni < eg.class_nodes(c).len() && (#[trigger] eg.class_nodes(c)[ni])@.1.len()
                    == 0 && !excluded_matches(ex, eg.class_nodes(c)[ni]);
            assert(eg.class_nodes(c)[ni].children@.len() == 0);
            assert(has_term_av(eg, c, ex, 1));
        } else {
            lemma_gs_nodes_sound(eg, c, ex, v.insert(c), 0, fuel);
        }
    }
}

/// Soundness of the node scan: a `true` answer comes from some non-excluded
/// node all of whose children hold terms.
proof fn lemma_gs_nodes_sound(
    eg: EGraph,
    c: int,
    ex: Option<(usize, Seq<usize>)>,
    v: Set<int>,
    ni: int,
    fuel: nat,
)
    requires
        gs_nodes(eg, c, ex, v, ni, fuel).0,
        eg.class_live(c),
    ensures
        exists|f: nat| has_term_av(eg, c, ex, f),
    decreases fuel, 1int, eg.class_nodes(c).len() - ni,
{
    if !(ni < 0 || ni >= eg.class_nodes(c).len()) {
        let n = eg.class_nodes(c)[ni];
        if excluded_matches(ex, n) {
            lemma_gs_nodes_sound(eg, c, ex, v, ni + 1, fuel);
        } else {
            let r = gs_children(eg, n.children@, ex, v, 0, fuel);
            if r.0 {
                lemma_gs_children_sound(eg, n.children@, ex, v, 0, fuel);
                let f = choose|f: nat| #[trigger] children_have_terms(eg, n.children@, ex, 0, f);
                assert forall|ci: int|
                    0 <= ci < n.children@.len() implies has_term_av(
                    eg,
                    #[trigger] n.children@[ci] as int,
                    ex,
                    f,
                ) by {}
                assert(has_term_av(eg, c, ex, f + 1));
            } else {
                lemma_gs_nodes_sound(eg, c, ex, r.1, ni + 1, fuel);
            }
        }
    }
}

/// Soundness of the child scan: if every remaining child grounds out, there
/// is one fuel bound good for all of them.
proof fn lemma_gs_children_sound(
    eg: EGraph,
    chs: Seq<usize>,
    ex: Option<(usize, Seq<usize>)>,
    v: Set<int>,
    ci: int,
    fuel: nat,
)
    requires
        0 <= ci,
        gs_children(eg, chs, ex, v, ci, fuel).0,
    ensures
        exists|f: nat| #[trigger] children_have_terms(eg, chs, ex, ci, f),
    decreases fuel, 0int, chs.len() - ci,
{
    if ci < 0 || ci >= chs.len() {
        let f0: nat = 1;
        assert(children_have_terms(eg, chs, ex, ci, f0));
    } else {
        let r = if fuel == 0 {
            (false, v)
        } else {
            gs_class(eg, chs[ci] as int, ex, v, (fuel - 1) as nat)
        };
        assert(r.0);
        assert(fuel > 0);
        lemma_gs_class_sound(eg, chs[ci] as int, ex, v, (fuel - 1) as nat);
        let f1 = choose|f1: nat| has_term_av(eg, chs[ci] as int, ex, f1);
        lemma_gs_children_sound(eg, chs, ex, r.1, ci + 1, fuel);
        let f2 = choose|f2: nat| #[trigger] children_have_terms(eg, chs, ex, ci + 1, f2);
        let f: nat = if f1 > f2 {
            f1
        } else {
            f2
        };
        assert forall|cj: int| ci <= cj < chs.len() implies has_term_av(
            eg,
            #[trigger] chs[cj] as int,
            ex,
            f,
        ) by {
            if cj == ci {
                lemma_term_mono(eg, chs[ci] as int, ex, f1, f);
            } else {
                assert(has_term_av(eg, chs[cj] as int, ex, f2));
                lemma_term_mono(eg, chs[cj] as int, ex, f2, f);
            }
        }
        assert(children_have_terms(eg, chs, ex, ci, f));
    }
}

/// The grounded check is sound: when it answers `true`, the class really
/// holds a finite term avoiding the excluded shape.
pub proof fn lemma_grounded_sound(eg: EGraph, c: int, ex: Option<(usize, Seq<usize>)>)
    requires
        grounded_spec(eg, c, ex),
    ensures
        exists|f: nat| has_term_av(eg, c, ex, f),
{
    lemma_gs_class_sound(eg, c, ex, Set::empty(), (eg.classes@.len() + 1) as nat);
}

/// A term that avoids the removed shape survives the removal.
pub proof fn lemma_term_survives_removal(
    eg1: EGraph,
    cc: int,
    k: (usize, Seq<usize>),
    eg2: EGraph,
    c: int,
    fuel: nat,
)
    requires
        eg1.wf(),
        eg1.class_live(cc),
        eg1.node_in_class(cc, k),
        removed_rel(eg1, cc, k, eg2),
        has_term_av(eg1, c, Some(k), fuel),
    ensures
        has_term_av(eg2, c, Some(k), fuel),
    decreases fuel,
{
    let ni = choose|ni: int|
        0 <= ni < eg1.class_nodes(c).len() && {
            let n = #[trigger] eg1.class_nodes(c)[ni];
            !excluded_matches(Some(k), n) && forall|ci: int|
                0 <= ci < n.children@.len() ==> has_term_av(
                    eg1,
                    #[trigger] n.children@[ci] as int,
                    Some(k),
                    (fuel - 1) as nat,
                )
        };
    let n = eg1.class_nodes(c)[ni];
    assert(n@ != k);
    // the class is still live in eg2
    assert(eg2.class_live(c)) by {
        if c != cc {
            assert(eg2.classes@[c] == eg1.classes@[c]);
        }
    }
    // the witness node is still in the class in eg2
    let idx = crate::undo::node_find(eg1.class_nodes(cc), k);
    let ni2: int = if c == cc {
        // locate the removed node to map the index
        assert(eg1.class_ok(cc));
        let wni = choose|wni: int|
            0 <= wni < eg1.class_nodes(cc).len() && (#[trigger] eg1.class_nodes(cc)[wni])@ == k;
        assert forall|m: int|
            0 <= m < eg1.class_nodes(cc).len() && m != wni implies (#[trigger] eg1.class_nodes(
            cc,
        )[m])@ != k by {}
        crate::undo::lemma_node_find_at_pub(eg1.class_nodes(cc), k, wni);
        assert(idx == wni);
        assert(ni != idx);
        if ni < idx {
            ni
        } else {
            ni - 1
        }
    } else {
        ni
    };
    assert(eg2.class_nodes(c)[ni2] == n) by {
        if c == cc {
            assert(eg2.class_nodes(cc) == eg1.class_nodes(cc).remove(idx));
        } else {
            assert(eg2.classes@[c] == eg1.classes@[c]);
        }
    }
    assert(0 <= ni2 < eg2.class_nodes(c).len());
    assert forall|ci: int|
        0 <= ci < n.children@.len() implies has_term_av(
        eg2,
        #[trigger] n.children@[ci] as int,
        Some(k),
        (fuel - 1) as nat,
    ) by {
        lemma_term_survives_removal(eg1, cc, k, eg2, n.children@[ci] as int, (fuel - 1) as nat);
    }
    assert(has_term_av(eg2, c, Some(k), fuel));
}

/// After a successful retraction the owning class is either left with a
/// finite term or the retraction would not have happened: removing one node
/// from an e-class keeps the class extractable, because the grounded guard
/// ran before the removal.
pub proof fn lemma_retraction_keeps_class(eg1: EGraph, cc: int, k: (usize, Seq<usize>), eg2: EGraph)
    requires
        eg1.wf(),
        eg1.class_live(cc),
        eg1.node_in_class(cc, k),
        grounded_spec(eg1, cc, Some(k)),
        removed_rel(eg1, cc, k, eg2),
    ensures
        extractable(eg2, cc),
{
    lemma_grounded_sound(eg1, cc, Some(k));
    let f = choose|f: nat| has_term_av(eg1, cc, Some(k), f);
    lemma_term_survives_removal(eg1, cc, k, eg2, cc, f);
    lemma_term_drop_exclusion(eg2, cc, Some(k), f);
}


/// Any finite term survives the removal of one e-node whose class keeps a
/// witness term: occurrences of the removed e-node are replaced by the
/// witness.
pub proof fn lemma_extraction_survives_removal(
    eg1: EGraph,
    cc: int,
    k: (usize, Seq<usize>),
    eg2: EGraph,
    c: int,
    fuel: nat,
    fw: nat,
)
    requires
        eg1.wf(),
        eg1.class_live(cc),
        eg1.node_in_class(cc, k),
        removed_rel(eg1, cc, k, eg2),
        has_term_av(eg2, cc, Some(k), fw),
        has_term_av(eg1, c, None, fuel),
    ensures
        has_term_av(eg2, c, None, (fuel + fw) as nat),
    decreases fuel,
{
    let ni = choose|ni: int|
        0 <= ni < eg1.class_nodes(c).len() && {
            let n = #[trigger] eg1.class_nodes(c)[ni];
            !excluded_matches(None, n) && forall|ci: int|
                0 <= ci < n.children@.len() ==> has_term_av(
                    eg1,
                    #[trigger] n.children@[ci] as int,
                    None,
                    (fuel - 1) as nat,
                )
        };
    let n = eg1.class_nodes(c)[ni];
    assert(eg1.class_live(c));
    assert(eg1.class_ok(c));
    assert(eg1.node_ok(c, n));
    if n@ == k {
        // the term's root is the removed e-node; its class is the owning one
        let wni = choose|wni: int|
            0 <= wni < eg1.class_nodes(cc).len() && (#[trigger] eg1.class_nodes(cc)[wni])@ == k;
        assert(eg1.class_ok(cc));
        assert(eg1.node_ok(cc, eg1.class_nodes(cc)[wni]));
        assert(memo_get(eg1.memo@, k) == Some(cc as usize));
        assert(memo_get(eg1.memo@, n@) == Some(c as usize));
        assert(c == cc);
        lemma_term_drop_exclusion(eg2, cc, Some(k), fw);
        lemma_term_mono(eg2, cc, None, fw, (fuel + fw) as nat);
    } else {
        // the node survives; its subterms are rebuilt recursively
        assert(eg2.class_live(c)) by {
            if c != cc {
                assert(eg2.classes@[c] == eg1.classes@[c]);
            }
        }
        let idx = node_find(eg1.class_nodes(cc), k);
        let ni2: int = if c == cc {
            let wni = choose|wni: int|
                0 <= wni < eg1.class_nodes(cc).len() && (#[trigger] eg1.class_nodes(cc)[wni])@
                    == k;
            assert forall|m: int|
                0 <= m < eg1.class_nodes(cc).len() && m != wni implies (
            #[trigger] eg1.class_nodes(cc)[m])@ != k by {}
            crate::undo::lemma_node_find_at_pub(eg1.class_nodes(cc), k, wni);
            assert(ni != idx);
            if ni < idx {
                ni
            } else {
                ni - 1
            }
        } else {
            ni
        };
        assert(eg2.class_nodes(c)[ni2] == n) by {
            if c == cc {
                assert(eg2.class_nodes(cc) == eg1.class_nodes(cc).remove(idx));
            } else {
                assert(eg2.classes@[c] == eg1.classes@[c]);
            }
        }
        assert(0 <= ni2 < eg2.class_nodes(c).len());
        assert forall|ci: int|
            0 <= ci < n.children@.len() implies has_term_av(
            eg2,
            #[trigger] n.children@[ci] as int,
            None,
            ((fuel + fw) - 1) as nat,
        ) by {
            lemma_extraction_survives_removal(
                eg1,
                cc,
                k,
                eg2,
                n.children@[ci] as int,
                (fuel - 1) as nat,
                fw,
            );
        }
        assert(has_term_av(eg2, c, None, (fuel + fw) as nat));
    }
}

/// One retraction step, whatever it decided, keeps every extractable class
/// extractable: either nothing changed, or the removed e-node's class kept a
/// grounded witness that can replace it in any term.
pub proof fn lemma_rtn_preserves_extraction(
    eg1: EGraph,
    ast: Seq<ENodeOrVar>,
    subst: Subst,
    r: Result<bool, String>,
    eg2: EGraph,
    c: int,
)
    requires
        eg1.wf(),
        rtn_post(eg1, ast, subst, r, eg2),
        extractable(eg1, c),
    ensures
        extractable(eg2, c),
{
    if eg2 != eg1 {
        let n = ast.len() - 1;
        let buf = resolve_ids(eg1, ast, subst, n);
        if ast.len() > 0 && prefix_ok(eg1, ast, subst, n) && ast[n] is ENode {
            let top = ast[n]->ENode_0;
            let tview = inst_view(top, buf);
            if memo_get(eg1.memo@, tview) is Some {
                let cid = memo_get(eg1.memo@, tview)->0;
                if grounded_spec(eg1, cid as int, Some(tview)) {
                    assert(removed_rel(eg1, cid as int, tview, eg2));
                    lemma_memo_get_entry(eg1.memo@, tview, 0);
                    let wmi = choose|wmi: int|
                        0 <= wmi < eg1.memo@.len() && (#[trigger] eg1.memo@[wmi]).0@ == tview
                            && eg1.memo@[wmi].1 == cid;
                    assert(eg1.memo_entry_ok(wmi));
                    assert(eg1.class_live(cid as int));
                    assert(eg1.node_in_class(cid as int, tview));
                    lemma_grounded_sound(eg1, cid as int, Some(tview));
                    let fw = choose|fw: nat| has_term_av(eg1, cid as int, Some(tview), fw);
                    lemma_term_survives_removal(eg1, cid as int, tview, eg2, cid as int, fw);
                    let fuel = choose|fuel: nat| has_term_av(eg1, c, None, fuel);
                    lemma_extraction_survives_removal(
                        eg1,
                        cid as int,
                        tview,
                        eg2,
                        c,
                        fuel,
                        fw,
                    );
                }
            }
        }
    }
}

/// A term of a reachable class only runs through reachable classes, so it
/// survives garbage collection unchanged.
pub proof fn lemma_gc_preserves_extraction(
    eg1: EGraph,
    roots: Seq<usize>,
    eg2: EGraph,
    count: u32,
    c: int,
    fuel: nat,
)
    requires
        eg1.wf(),
        crate::undo::gc_rel(eg1, roots, eg2, count),
        is_reachable(eg1, roots, c),
        has_term_av(eg1, c, None, fuel),
    ensures
        has_term_av(eg2, c, None, fuel),
    decreases fuel,
{
    let ni = choose|ni: int|
        0 <= ni < eg1.class_nodes(c).len() && {
            let n = #[trigger] eg1.class_nodes(c)[ni];
            !excluded_matches(None, n) && forall|ci: int|
                0 <= ci < n.children@.len() ==> has_term_av(
                    eg1,
                    #[trigger] n.children@[ci] as int,
                    None,
                    (fuel - 1) as nat,
                )
        };
    let n = eg1.class_nodes(c)[ni];
    assert(eg1.class_live(c));
    assert(eg2.class_live(c));
    assert(eg2.class_nodes(c) == eg1.class_nodes(c));
    assert forall|ci: int|
        0 <= ci < n.children@.len() implies has_term_av(
        eg2,
        #[trigger] n.children@[ci] as int,
        None,
        (fuel - 1) as nat,
    ) by {
        let b = n.children@[ci] as int;
        assert(eg1.class_ok(c));
        assert(eg1.node_ok(c, n));
        assert(eg1.class_live(b));
        assert(eg1.class_nodes(c)[ni].children@[ci] as int == b);
        assert(edge(eg1, c, b));
        crate::undo::lemma_reach_extend_pub(eg1, roots, c, b);
        lemma_gc_preserves_extraction(eg1, roots, eg2, count, b, (fuel - 1) as nat);
    }
    assert(has_term_av(eg2, c, None, fuel));
}


/// Walking one rewrite's retraction chain keeps the e-graph well formed,
/// keeps every class alive, keeps the union-find, and keeps the class
/// extractable.
proof fn lemma_substs_chain_walk(
    states: Seq<EGraph>,
    ast: Seq<ENodeOrVar>,
    substs: Seq<Subst>,
    c: int,
    i: int,
)
    requires
        0 <= i < states.len(),
        states[0].wf(),
        extractable(states[0], c),
        forall|si: int|
            0 <= si < states.len() - 1 ==> crate::undo::rtn_ok_rel(
                #[trigger] states[si],
                ast,
                substs[si + 1],
                states[si + 1],
            ),
    ensures
        states[i].wf(),
        extractable(states[i], c),
        states[i].unionfind == states[0].unionfind,
        forall|cc: int| states[i].class_live(cc) <==> states[0].class_live(cc),
    decreases i,
{
    if i > 0 {
        lemma_substs_chain_walk(states, ast, substs, c, i - 1);
        assert(crate::undo::rtn_ok_rel(states[i - 1], ast, substs[i], states[i]));
        let b = choose|b: bool|
            rtn_post(states[i - 1], ast, substs[i], Ok::<bool, String>(b), states[i]);
        crate::undo::lemma_rtn_preserves_wf(
            states[i - 1],
            ast,
            substs[i],
            Ok::<bool, String>(b),
            states[i],
        );
        lemma_rtn_preserves_extraction(
            states[i - 1],
            ast,
            substs[i],
            Ok::<bool, String>(b),
            states[i],
            c,
        );
        lemma_rtn_preserves(
            states[i - 1],
            ast,
            substs[i],
            Ok::<bool, String>(b),
            states[i],
        );
    }
}

/// Walking the whole list of rewrites does the same.
proof fn lemma_undo_chain_walk(
    states: Seq<EGraph>,
    pairs: Seq<(crate::undo::Rewrite, Vec<Subst>)>,
    c: int,
    i: int,
)
    requires
        0 <= i < states.len(),
        states.len() == pairs.len() + 1,
        states[0].wf(),
        extractable(states[0], c),
        forall|pi: int|
            0 <= pi < pairs.len() ==> crate::undo::rewrite_step(
                #[trigger] states[pi],
                pairs[pi],
                states[pi + 1],
            ),
    ensures
        states[i].wf(),
        extractable(states[i], c),
        states[i].unionfind == states[0].unionfind,
        forall|cc: int| states[i].class_live(cc) <==> states[0].class_live(cc),
    decreases i,
{
    if i > 0 {
        lemma_undo_chain_walk(states, pairs, c, i - 1);
        assert(crate::undo::rewrite_step(states[i - 1], pairs[i - 1], states[i]));
        let ast = pairs[i - 1].0.applier_ast->0@;
        let substs = pairs[i - 1].1@;
        let inner = choose|inner: Seq<EGraph>|
            #![trigger inner[0]]
            {
                let steps: int = if substs.len() == 0 {
                    0
                } else {
                    substs.len() - 1
                };
                &&& inner.len() == steps + 1
                &&& inner[0] == states[i - 1]
                &&& inner.last() == states[i]
                &&& forall|si: int|
                    0 <= si < steps ==> crate::undo::rtn_ok_rel(
                        #[trigger] inner[si],
                        ast,
                        substs[si + 1],
                        inner[si + 1],
                    )
            };
        lemma_substs_chain_walk(inner, ast, substs, c, inner.len() - 1);
        assert(inner.last() == states[i]);
    }
}

/// After a successful `undo_rewrites`, every root e-class still extracts a
/// finite term: each retraction replaced the removed e-node by a grounded
/// witness, and the final sweep only dropped classes that no term reachable
/// from a root runs through.
pub proof fn lemma_undo_preserves_roots(
    eg0: EGraph,
    pairs: Seq<(crate::undo::Rewrite, Vec<Subst>)>,
    mid: EGraph,
    roots: Seq<usize>,
    eg2: EGraph,
    count: u32,
    ri: int,
)
    requires
        eg0.wf(),
        crate::undo::roots_ok(eg0, roots),
        crate::undo::undo_chain(eg0, pairs, mid),
        crate::undo::gc_rel(mid, roots, eg2, count),
        0 <= ri < roots.len(),
        extractable(eg0, eg0.unionfind.root_of(roots[ri] as int)->0 as int),
    ensures
        extractable(eg2, eg0.unionfind.root_of(roots[ri] as int)->0 as int),
{
    let rc = eg0.unionfind.root_of(roots[ri] as int)->0 as int;
    let states = choose|states: Seq<EGraph>|
        #![trigger states[0]]
        {
            &&& states.len() == pairs.len() + 1
            &&& states[0] == eg0
            &&& states.last() == mid
            &&& forall|pi: int|
                0 <= pi < pairs.len() ==> crate::undo::rewrite_step(
                    #[trigger] states[pi],
                    pairs[pi],
                    states[pi + 1],
                )
        };
    lemma_undo_chain_walk(states, pairs, rc, states.len() - 1);
    assert(states.last() == mid);
    assert(mid.wf() && extractable(mid, rc));
    // the root class is trivially reachable in the pre-sweep state
    assert(crate::undo::root_ok(eg0, roots[ri]));
    assert(mid.class_live(rc));
    assert(mid.unionfind.root_of(roots[ri] as int) == eg0.unionfind.root_of(roots[ri] as int));
    let p = seq![rc];
    assert(p.last() == rc);
    assert(crate::undo::root_seed(mid, roots, rc));
    assert(crate::undo::path_ok(mid, roots, p, rc));
    assert(is_reachable(mid, roots, rc));
    let fuel = choose|fuel: nat| has_term_av(mid, rc, None, fuel);
    lemma_gc_preserves_extraction(mid, roots, eg2, count, rc, fuel);
}

} // verus!
