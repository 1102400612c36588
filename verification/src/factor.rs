//! Left-factoring: rewriting every expansion with more than two children
//! into a chain of binary expansions under synthetic heads.
use crate::tree::{lemma_node_view, lemma_nodes_view, nodes_view, Node, TreeV};
use vstd::prelude::*;

verus! {

/// The number of nodes in a tree.
pub open spec fn tree_size(t: TreeV) -> nat
    decreases t,
{
    1 + forest_size(t.kids)
}

/// The total number of nodes in a sequence of trees.
pub open spec fn forest_size(ks: Seq<TreeV>) -> nat
    decreases ks,
{
    if ks.len() == 0 {
        0
    } else {
        tree_size(ks[0]) + forest_size(ks.drop_first())
    }
}

pub proof fn lemma_forest_size_index(ks: Seq<TreeV>, i: int)
    requires
        0 <= i < ks.len(),
    ensures
        tree_size(ks[i]) <= forest_size(ks),
    decreases i,
{
    if i > 0 {
        lemma_forest_size_index(ks.drop_first(), i - 1);
        assert(ks.drop_first()[i - 1] == ks[i]);
    }
}

/// The left-factored form of a tree. A node with more than two children
/// `[k0, k1, ..., kn]` keeps `k0` and gains one synthetic second child
/// whose head is the node's head, a tilde, and `k0`'s head, and whose
/// children are `[k1, ..., kn]`; the rewrite then descends into both, so
/// a still-wide synthetic node is factored again. Nodes with at most two
/// children keep their shape and have their children rewritten.
pub open spec fn lf(t: TreeV) -> TreeV
    decreases tree_size(t), 0int,
    via lf_decreases
{
    if t.kids.len() > 2 {
        let k0 = t.kids[0];
        let standin = TreeV { head: t.head + "~"@ + k0.head, kids: t.kids.drop_first() };
        TreeV { head: t.head, kids: seq![lf(k0), lf(standin)] }
    } else {
        TreeV { head: t.head, kids: lf_kids(t.kids) }
    }
}

/// The left-factored forms of a sequence of trees, elementwise.
pub open spec fn lf_kids(ks: Seq<TreeV>) -> Seq<TreeV>
    decreases forest_size(ks), 1int,
    via lf_kids_decreases
{
    if ks.len() == 0 {
        Seq::empty()
    } else {
        seq![lf(ks[0])].add(lf_kids(ks.drop_first()))
    }
}

#[via_fn]
proof fn lf_decreases(t: TreeV) {
    if t.kids.len() > 2 {
        let k0 = t.kids[0];
        let standin = TreeV { head: t.head + "~"@ + k0.head, kids: t.kids.drop_first() };
        assert(forest_size(t.kids) == tree_size(k0) + forest_size(t.kids.drop_first()));
        assert(tree_size(standin) == 1 + forest_size(t.kids.drop_first()));
        assert(tree_size(k0) >= 1);
    }
}

#[via_fn]
proof fn lf_kids_decreases(ks: Seq<TreeV>) {
    if ks.len() > 0 {
        assert(forest_size(ks) == tree_size(ks[0]) + forest_size(ks.drop_first()));
        assert(tree_size(ks[0]) >= 1);
    }
}

pub proof fn lemma_lf_kids(ks: Seq<TreeV>)
    ensures
        lf_kids(ks).len() == ks.len(),
        forall|i: int| 0 <= i < ks.len() ==> lf_kids(ks)[i] == lf(ks[i]),
    decreases ks.len(),
{
    if ks.len() > 0 {
        lemma_lf_kids(ks.drop_first());
        assert(lf_kids(ks) == seq![lf(ks[0])].add(lf_kids(ks.drop_first())));
        assert forall|i: int| 0 <= i < ks.len() implies lf_kids(ks)[i] == lf(ks[i]) by {
            if i > 0 {
                assert(seq![lf(ks[0])].add(lf_kids(ks.drop_first()))[i] == lf_kids(
                    ks.drop_first(),
                )[i - 1]);
                assert(ks.drop_first()[i - 1] == ks[i]);
            }
        }
    }
}

/// Every node of the tree has at most two children.
pub open spec fn is_binary(t: TreeV) -> bool
    decreases t,
{
    t.kids.len() <= 2 && forall|i: int| 0 <= i < t.kids.len() ==> is_binary(#[trigger] t.kids[i])
}

/// Left-factoring leaves every node with at most two children. This is
/// the termination property of the rewrite: running it again finds
/// nothing left to widen.
pub proof fn lemma_lf_binary(t: TreeV)
    ensures
        is_binary(lf(t)),
    decreases tree_size(t),
{
    if t.kids.len() > 2 {
        let k0 = t.kids[0];
        let standin = TreeV { head: t.head + "~"@ + k0.head, kids: t.kids.drop_first() };
        assert(forest_size(t.kids) == tree_size(k0) + forest_size(t.kids.drop_first()));
        lemma_lf_binary(k0);
        lemma_lf_binary(standin);
        assert(lf(t).kids == seq![lf(k0), lf(standin)]);
        assert(lf(t).kids[0] == lf(k0));
        assert(lf(t).kids[1] == lf(standin));
    } else {
        lemma_lf_kids(t.kids);
        assert forall|i: int| 0 <= i < lf(t).kids.len() implies is_binary(lf(t).kids[i]) by {
            lemma_forest_size_index(t.kids, i);
            lemma_lf_binary(t.kids[i]);
        }
    }
}

/// On a tree whose nodes all have at most two children, left-factoring
/// changes nothing.
pub proof fn lemma_lf_of_binary(t: TreeV)
    requires
        is_binary(t),
    ensures
        lf(t) == t,
    decreases t,
{
    lemma_lf_kids(t.kids);
    assert forall|i: int| 0 <= i < t.kids.len() implies lf_kids(t.kids)[i] == t.kids[i] by {
        lemma_lf_of_binary(t.kids[i]);
    }
    assert(lf_kids(t.kids) =~= t.kids);
    assert(lf(t) =~= t);
}

/// Left-factoring is idempotent: a second application returns the first
/// application's result unchanged.
pub proof fn lemma_left_factor_idempotent(t: TreeV)
    ensures
        lf(lf(t)) == lf(t),
{
    lemma_lf_binary(t);
    lemma_lf_of_binary(lf(t));
}

impl Node {
    /// Rewrites this tree in place into its left-factored form.
    pub fn left_factor(&mut self)
        ensures
            final(self)@ == lf(old(self)@),
    {
        let mut tmp = Node { head: String::new(), kids: Vec::new() };
        core::mem::swap(self, &mut tmp);
        *self = lf_node(tmp);
    }
}

/// Builds the left-factored form of a tree, consuming it.
#[verifier::loop_isolation(false)]
fn lf_node(t: Node) -> (r: Node)
    ensures
        r@ == lf(t@),
    decreases tree_size(t@),
{
    let ghost tv = t@;
    proof {
        lemma_node_view(t);
    }
    let head = t.head;
    let mut kids = t.kids;
    if kids.len() > 2 {
        let ghost kids0 = kids@;
        let k0 = kids.remove(0);
        proof {
            lemma_nodes_view(kids0);
            lemma_nodes_view(kids@);
            lemma_node_view(k0);
            assert(kids@ =~= kids0.drop_first());
            assert(k0@ == tv.kids[0]);
            assert forall|i: int| 0 <= i < kids@.len() implies nodes_view(kids@)[i]
                == tv.kids.drop_first()[i] by {
                assert(nodes_view(kids@)[i] == kids@[i]@);
                assert(kids@[i] == kids0[i + 1]);
            }
        }
        let mut standin_head = head.clone();
        standin_head.append("~");
        standin_head.append(k0.head.as_str());
        let standin = Node { head: standin_head, kids };
        proof {
            lemma_node_view(standin);
            assert(standin@.kids =~= tv.kids.drop_first());
            assert(standin@.head =~= tv.head + "~"@ + tv.kids[0].head);
            assert(standin@ =~= (TreeV {
                head: tv.head + "~"@ + tv.kids[0].head,
                kids: tv.kids.drop_first(),
            }));
            assert(forest_size(tv.kids) == tree_size(tv.kids[0]) + forest_size(
                tv.kids.drop_first(),
            ));
        }
        let a = lf_node(k0);
        let b = lf_node(standin);
        let mut nk: Vec<Node> = Vec::new();
        nk.push(a);
        nk.push(b);
        let out = Node { head, kids: nk };
        proof {
            lemma_node_view(out);
            assert(out@.kids =~= lf(tv).kids);
            assert(out@ =~= lf(tv));
        }
        out
    } else {
        let ghost orig = tv.kids;
        let mut out_kids: Vec<Node> = Vec::new();
        let ghost mut g: int = 0;
        proof {
            lemma_lf_kids(orig);
        }
        while kids.len() > 0
            invariant
                0 <= g <= orig.len(),
                out_kids@.len() == g,
                nodes_view(kids@) =~= orig.skip(g),
                forall|i: int| 0 <= i < g ==> out_kids@[i]@ == lf(orig[i]),
            decreases orig.len() - g,
        {
            let ghost pre_kids = kids@;
            let k = kids.remove(0);
            proof {
                lemma_nodes_view(pre_kids);
                lemma_nodes_view(kids@);
                assert(k@ == nodes_view(pre_kids)[0]);
                assert(k@ == orig.skip(g)[0]);
                assert(k@ == orig[g]);
                assert(kids@ =~= pre_kids.drop_first());
                assert forall|i: int| 0 <= i < kids@.len() implies nodes_view(kids@)[i] == orig.skip(
                    g + 1,
                )[i] by {
                    assert(nodes_view(kids@)[i] == kids@[i]@);
                    assert(kids@[i] == pre_kids[i + 1]);
                    assert(nodes_view(pre_kids)[i + 1] == orig.skip(g)[i + 1]);
                }
                assert(nodes_view(kids@) =~= orig.skip(g + 1));
                lemma_forest_size_index(orig, g);
            }
            let fk = lf_node(k);
            let ghost pre = out_kids@;
            out_kids.push(fk);
            proof {
                assert(pre.push(fk)[g] == fk);
                assert(forall|i: int| 0 <= i < g ==> pre.push(fk)[i] == pre[i]);
                g = g + 1;
            }
        }
        let out = Node { head, kids: out_kids };
        proof {
            lemma_node_view(out);
            lemma_nodes_view(kids@);
            assert(orig.skip(g) =~= Seq::<TreeV>::empty());
            assert(g == orig.len());
            assert forall|i: int| 0 <= i < orig.len() implies out@.kids[i] == lf_kids(orig)[i] by {
                assert(out@.kids[i] == out_kids@[i]@);
            }
            assert(out@.kids =~= lf_kids(orig));
            assert(out@ =~= lf(tv));
        }
        out
    }
}

} // verus!
