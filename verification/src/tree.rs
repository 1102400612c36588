//! The parse-tree type, its mathematical model, and its basic operations.
use crate::textops::{join_seq, join_strings, strs_view};
use vstd::prelude::*;

verus! {

/// Mathematical model of a parse tree: a head symbol and an ordered
/// sequence of child trees.
#[verifier::ext_equal]
pub struct TreeV {
    pub head: Seq<char>,
    pub kids: Seq<TreeV>,
}

/// A constituency parse tree: a label and its ordered children.
#[derive(Debug)]
pub struct Node {
    pub head: String,
    pub kids: Vec<Node>,
}

/// The models of a sequence of nodes, elementwise.
pub closed spec fn nodes_view(ks: Seq<Node>) -> Seq<TreeV>
    decreases ks,
{
    if ks.len() == 0 {
        Seq::empty()
    } else {
        seq![ks[0].view()].add(nodes_view(ks.drop_first()))
    }
}

impl View for Node {
    type V = TreeV;

    closed spec fn view(&self) -> TreeV
        decreases self,
    {
        TreeV { head: self.head@, kids: nodes_view(self.kids@) }
    }
}

pub broadcast proof fn lemma_nodes_view(ks: Seq<Node>)
    ensures
        (#[trigger] nodes_view(ks)).len() == ks.len(),
        forall|i: int| 0 <= i < ks.len() ==> nodes_view(ks)[i] == ks[i]@,
    decreases ks.len(),
{
    if ks.len() > 0 {
        lemma_nodes_view(ks.drop_first());
        assert(nodes_view(ks) == seq![ks[0]@].add(nodes_view(ks.drop_first())));
        assert(nodes_view(ks).len() == 1 + nodes_view(ks.drop_first()).len());
        assert forall|i: int| 0 <= i < ks.len() implies nodes_view(ks)[i] == ks[i]@ by {
            if i > 0 {
                assert(seq![ks[0]@].add(nodes_view(ks.drop_first()))[i] == nodes_view(
                    ks.drop_first(),
                )[i - 1]);
                assert(ks.drop_first()[i - 1] == ks[i]);
            }
        }
    }
}

pub proof fn lemma_nodes_view_push(ks: Seq<Node>, n: Node)
    ensures
        nodes_view(ks.push(n)) =~= nodes_view(ks).push(n@),
{
    lemma_nodes_view(ks.push(n));
    lemma_nodes_view(ks);
}

pub broadcast proof fn lemma_node_view(n: Node)
    ensures
        (#[trigger] n@).head == n.head@,
        n@.kids == nodes_view(n.kids@),
        n@.kids.len() == n.kids@.len(),
        forall|i: int| 0 <= i < n.kids@.len() ==> n@.kids[i] == n.kids@[i]@,
{
    lemma_nodes_view(n.kids@);
}

impl TreeV {
    /// The heads of the children, in order.
    pub open spec fn kid_heads(self) -> Seq<Seq<char>> {
        self.kids.map_values(|k: TreeV| k.head)
    }

    /// The right-hand side a node expands to: its children's heads joined
    /// with single spaces.
    pub open spec fn rhs_spec(self) -> Seq<char> {
        join_seq(self.kid_heads(), " "@)
    }

    /// The rule a node contributes, rendered as `lhs -> rhs`.
    pub open spec fn cfg_line(self) -> Seq<char> {
        self.head + " -> "@ + self.rhs_spec()
    }
}

/// The preorder sequence of a tree: the tree itself, then its children's
/// preorder sequences, left to right.
pub open spec fn preorder_of(t: TreeV) -> Seq<TreeV>
    decreases t,
{
    seq![t].add(preorder_kids(t.kids))
}

/// The concatenated preorder sequences of a sequence of trees.
pub open spec fn preorder_kids(ks: Seq<TreeV>) -> Seq<TreeV>
    decreases ks,
{
    if ks.len() == 0 {
        Seq::empty()
    } else {
        preorder_of(ks[0]).add(preorder_kids(ks.drop_first()))
    }
}

/// A lazy preorder traversal: a stack of subtrees yet to be walked.
pub struct TreeIter<'a> {
    pub stack: Vec<&'a Node>,
}

/// The trees a traversal with this stack will still yield: the preorder
/// sequences of the stacked subtrees, topmost first.
pub open spec fn stack_remaining(st: Seq<&Node>) -> Seq<TreeV>
    decreases st.len(),
{
    if st.len() == 0 {
        Seq::empty()
    } else {
        preorder_of(st.last()@).add(stack_remaining(st.drop_last()))
    }
}

impl<'a> TreeIter<'a> {
    /// The trees this traversal will still yield, in order.
    pub open spec fn remaining(self) -> Seq<TreeV> {
        stack_remaining(self.stack@)
    }

    /// Yields the next tree of the traversal: each tree comes before its
    /// children, children left to right.
    #[verifier::loop_isolation(false)]
    pub fn next(&mut self) -> (r: Option<&'a Node>)
        ensures
            old(self).remaining().len() == 0 ==> r is None && final(self).remaining() == old(
                self,
            ).remaining(),
            old(self).remaining().len() > 0 ==> (r matches Some(n) && n@ == old(
                self,
            ).remaining()[0] && final(self).remaining() == old(self).remaining().drop_first()),
    {
        let next = match self.stack.pop() {
            Some(n) => n,
            None => {
                return None;
            },
        };
        proof {
            lemma_node_view(*next);
            assert(old(self).remaining() == preorder_of(next@).add(
                stack_remaining(self.stack@),
            ));
        }
        let ghost base = stack_remaining(self.stack@);
        let mut j = next.kids.len();
        proof {
            assert(next@.kids.skip(j as int) =~= Seq::<TreeV>::empty());
        }
        while j > 0
            invariant
                j <= next.kids@.len(),
                stack_remaining(self.stack@) == preorder_kids(next@.kids.skip(j as int)).add(base),
            decreases j,
        {
            let ghost st = self.stack@;
            let kid: &'a Node = &next.kids[j - 1];
            self.stack.push(kid);
            proof {
                assert(st.push(kid).drop_last() =~= st);
                assert(st.push(kid).last() == kid);
                assert(kid@ == next@.kids[j - 1]);
                assert(next@.kids.skip(j - 1)[0] == next@.kids[j - 1]);
                assert(next@.kids.skip(j - 1).drop_first() =~= next@.kids.skip(j as int));
                assert(preorder_kids(next@.kids.skip(j - 1)) == preorder_of(kid@).add(
                    preorder_kids(next@.kids.skip(j as int)),
                ));
                assert(stack_remaining(self.stack@) =~= preorder_kids(next@.kids.skip(j - 1)).add(
                    base,
                ));
            }
            j = j - 1;
        }
        proof {
            assert(next@.kids.skip(0) =~= next@.kids);
            assert(old(self).remaining().drop_first() =~= preorder_kids(next@.kids).add(base));
        }
        Some(next)
    }
}

impl Node {
    /// A fresh preorder traversal of this tree; the tree itself is not
    /// consumed.
    pub fn preorder(&self) -> (it: TreeIter)
        ensures
            it.remaining() == preorder_of(self@),
    {
        let mut stack: Vec<&Node> = Vec::new();
        stack.push(self);
        proof {
            assert(stack@.drop_last() =~= Seq::<&Node>::empty());
            assert(stack@.last() == self);
            assert(stack_remaining(stack@) == preorder_of(stack@.last()@).add(
                stack_remaining(stack@.drop_last()),
            ));
            assert(stack_remaining(Seq::<&Node>::empty()) == Seq::<TreeV>::empty());
            assert(preorder_of(self@).add(Seq::<TreeV>::empty()) =~= preorder_of(self@));
        }
        TreeIter { stack }
    }
}

impl Node {
    /// The left-hand-side symbol of this node's rule: its head.
    pub fn lhs(&self) -> (r: &str)
        ensures
            r@ == self@.head,
    {
        proof {
            lemma_node_view(*self);
        }
        self.head.as_str()
    }

    /// The right-hand side of this node's rule: the children's heads joined
    /// with single spaces (empty for a leaf).
    pub fn rhs(&self) -> (r: String)
        ensures
            r@ == self@.rhs_spec(),
    {
        proof {
            lemma_node_view(*self);
        }
        let ghost goal: Seq<Seq<char>> = self@.kid_heads();
        let mut heads: Vec<String> = Vec::new();
        let mut i: usize = 0;
        while i < self.kids.len()
            invariant
                i <= self.kids.len(),
                goal == self@.kid_heads(),
                self@.kids.len() == self.kids@.len(),
                forall|j: int| 0 <= j < self.kids@.len() ==> self@.kids[j] == self.kids@[j]@,
                heads@.len() == i,
                forall|j: int| 0 <= j < i ==> heads@[j]@ == goal[j],
            decreases self.kids.len() - i,
        {
            let ghost pre = heads@;
            let h = self.kids[i].head.clone();
            heads.push(h);
            proof {
                lemma_node_view(self.kids@[i as int]);
                assert(pre.push(h)[i as int] == h);
                assert(forall|j: int| 0 <= j < i ==> pre.push(h)[j] == pre[j]);
                assert(heads@[i as int]@ == goal[i as int]);
            }
            i += 1;
        }
        proof {
            assert forall|j: int| 0 <= j < heads@.len() implies strs_view(heads@)[j] == goal[j] by {
                assert(strs_view(heads@)[j] == heads@[j]@);
            }
            assert(strs_view(heads@) =~= goal);
        }
        join_strings(&heads, " ")
    }

    /// The rule this node contributes, as the text `lhs -> rhs`.
    pub fn to_cfg_str(&self) -> (r: String)
        ensures
            r@ == self@.cfg_line(),
    {
        let mut line = self.head.clone();
        proof {
            lemma_node_view(*self);
        }
        line.append(" -> ");
        let tail = self.rhs();
        line.append(tail.as_str());
        line
    }
}

} // verus!

verus! {

impl PartialEq for Node {
    #[verifier::loop_isolation(false)]
    fn eq(&self, other: &Node) -> (r: bool)
        ensures
            r == (self@ == other@),
        decreases self,
    {
        proof {
            lemma_node_view(*self);
            lemma_node_view(*other);
        }
        if !self.head.eq(&other.head) {
            return false;
        }
        if self.kids.len() != other.kids.len() {
            return false;
        }
        let mut i: usize = 0;
        while i < self.kids.len()
            invariant
                i <= self.kids@.len(),
                self.kids@.len() == other.kids@.len(),
                forall|j: int| 0 <= j < i ==> self@.kids[j] == other@.kids[j],
            decreases self.kids@.len() - i,
        {
            if !self.kids[i].eq(&other.kids[i]) {
                proof {
                    assert(self@.kids[i as int] != other@.kids[i as int]);
                }
                return false;
            }
            i += 1;
        }
        proof {
            assert(self@.kids =~= other@.kids);
            assert(self@ =~= other@);
        }
        true
    }
}

impl vstd::std_specs::cmp::PartialEqSpecImpl for Node {
    open spec fn obeys_eq_spec() -> bool {
        true
    }

    open spec fn eq_spec(&self, other: &Node) -> bool {
        self@ == other@
    }
}

} // verus!
