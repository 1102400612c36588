//! Rendering a tree back to bracket text, and the round trip: a tree the
//! parser built, rendered and parsed again, comes back unchanged.
use crate::parse::{lemma_spec_parse_consumes, spec_parse, spec_parse_kids, spec_parse_text, ErrV};
use crate::token::{atom_len, is_name_char, is_ws, lemma_atom_len_le, spec_tokenize, TokV};
use crate::tree::{lemma_node_view, Node, TreeV};
use vstd::prelude::*;

verus! {

/// A head the tokenizer would read back as one atom: non-empty, made of
/// atom characters only.
pub open spec fn wf_head(h: Seq<char>) -> bool {
    h.len() > 0 && forall|i: int| 0 <= i < h.len() ==> is_name_char(#[trigger] h[i])
}

/// Every head of the tree is a well-formed atom. Trees the parser builds
/// are such; a hand-built tree with a space or parenthesis in a head has
/// no faithful bracket text.
pub open spec fn wf_tree(t: TreeV) -> bool
    decreases t,
{
    wf_head(t.head) && forall|i: int| 0 <= i < t.kids.len() ==> wf_tree(#[trigger] t.kids[i])
}

/// The canonical bracket text of a tree: a leaf is its head; an internal
/// node is `(`, its head, each child's text preceded by one space, `)`.
pub open spec fn spec_render(t: TreeV) -> Seq<char>
    decreases t,
{
    if t.kids.len() == 0 {
        t.head
    } else {
        seq!['('] + t.head + render_kids(t.kids) + seq![')']
    }
}

/// The rendered children, each preceded by one space.
pub open spec fn render_kids(ks: Seq<TreeV>) -> Seq<char>
    decreases ks,
{
    if ks.len() == 0 {
        Seq::empty()
    } else {
        seq![' '] + spec_render(ks[0]) + render_kids(ks.drop_first())
    }
}

/// The token sequence a tree's text scans to.
pub open spec fn tree_tokens(t: TreeV) -> Seq<TokV>
    decreases t,
{
    if t.kids.len() == 0 {
        seq![TokV::Atom(t.head)]
    } else {
        seq![TokV::OpenParen, TokV::Atom(t.head)] + kids_tokens(t.kids) + seq![TokV::CloseParen]
    }
}

/// The concatenated token sequences of a sequence of trees.
pub open spec fn kids_tokens(ks: Seq<TreeV>) -> Seq<TokV>
    decreases ks,
{
    if ks.len() == 0 {
        Seq::empty()
    } else {
        tree_tokens(ks[0]) + kids_tokens(ks.drop_first())
    }
}

/// A well-formed head followed by text that starts no atom scans to the
/// head's atom token, then the rest's tokens.
proof fn lemma_tokenize_atom_prefix(h: Seq<char>, rest: Seq<char>)
    requires
        wf_head(h),
        rest.len() == 0 || !is_name_char(rest[0]),
    ensures
        spec_tokenize(h + rest) == seq![TokV::Atom(h)] + spec_tokenize(rest),
{
    let s = h + rest;
    crate::token::lemma_atom_len_is_pub(s, h.len() as int);
    assert(s.take(h.len() as int) =~= h);
    assert(s.skip(h.len() as int) =~= rest);
    assert(!is_ws(s[0]) && s[0] != '(' && s[0] != ')');
    assert(atom_len(s) == 1 + atom_len(s.drop_first()));
    assert(spec_tokenize(s) == seq![TokV::Atom(s.take(atom_len(s) as int))].add(
        spec_tokenize(s.skip(atom_len(s) as int)),
    ));
    assert(seq![TokV::Atom(h)].add(spec_tokenize(rest)) =~= seq![TokV::Atom(h)] + spec_tokenize(
        rest,
    ));
}

/// The text of a tree, followed by text that starts no atom, scans to the
/// tree's tokens, then the rest's tokens.
proof fn lemma_tokenize_render(t: TreeV, rest: Seq<char>)
    requires
        wf_tree(t),
        rest.len() == 0 || !is_name_char(rest[0]),
    ensures
        spec_tokenize(spec_render(t) + rest) == tree_tokens(t) + spec_tokenize(rest),
    decreases t,
{
    if t.kids.len() == 0 {
        lemma_tokenize_atom_prefix(t.head, rest);
        assert(spec_render(t) + rest =~= t.head + rest);
        assert(seq![TokV::Atom(t.head)] + spec_tokenize(rest) =~= tree_tokens(t) + spec_tokenize(
            rest,
        ));
    } else {
        let s = spec_render(t) + rest;
        let after_open = t.head + (render_kids(t.kids) + (seq![')'] + rest));
        assert(s =~= seq!['('] + after_open);
        assert(s[0] == '(');
        assert(s.drop_first() =~= after_open);
        let tail = render_kids(t.kids) + (seq![')'] + rest);
        assert(tail[0] == ' ' || tail[0] == ')');
        lemma_tokenize_atom_prefix(t.head, tail);
        lemma_tokenize_render_kids(t.kids, seq![')'] + rest);
        let closing = seq![')'] + rest;
        assert(closing[0] == ')');
        assert(closing.drop_first() =~= rest);
        assert(spec_tokenize(s) == seq![TokV::OpenParen] + (seq![TokV::Atom(t.head)] + (
        kids_tokens(t.kids) + (seq![TokV::CloseParen] + spec_tokenize(rest)))));
        assert(seq![TokV::OpenParen] + (seq![TokV::Atom(t.head)] + (kids_tokens(t.kids) + (seq![
            TokV::CloseParen,
        ] + spec_tokenize(rest)))) =~= tree_tokens(t) + spec_tokenize(rest));
    }
}

proof fn lemma_tokenize_render_kids(ks: Seq<TreeV>, rest: Seq<char>)
    requires
        forall|i: int| 0 <= i < ks.len() ==> wf_tree(#[trigger] ks[i]),
        rest.len() > 0 && !is_name_char(rest[0]),
    ensures
        spec_tokenize(render_kids(ks) + rest) == kids_tokens(ks) + spec_tokenize(rest),
    decreases ks,
{
    if ks.len() == 0 {
        assert(render_kids(ks) + rest =~= rest);
        assert(kids_tokens(ks) + spec_tokenize(rest) =~= spec_tokenize(rest));
    } else {
        let s = render_kids(ks) + rest;
        let after_space = spec_render(ks[0]) + (render_kids(ks.drop_first()) + rest);
        assert(s =~= seq![' '] + after_space);
        assert(s[0] == ' ');
        assert(s.drop_first() =~= after_space);
        assert(forall|i: int|
            0 <= i < ks.drop_first().len() ==> wf_tree(#[trigger] ks.drop_first()[i]));
        let inner_rest = render_kids(ks.drop_first()) + rest;
        assert(ks.drop_first().len() > 0 ==> inner_rest[0] == ' ');
        assert(ks.drop_first().len() == 0 ==> inner_rest =~= rest);
        lemma_tokenize_render(ks[0], inner_rest);
        lemma_tokenize_render_kids(ks.drop_first(), rest);
        assert(spec_tokenize(s) == tree_tokens(ks[0]) + (kids_tokens(ks.drop_first())
            + spec_tokenize(rest)));
        assert(tree_tokens(ks[0]) + (kids_tokens(ks.drop_first()) + spec_tokenize(rest)) =~= (
        tree_tokens(ks[0]) + kids_tokens(ks.drop_first())) + spec_tokenize(rest));
    }
}

/// Parsing a tree's tokens yields that tree and leaves the rest.
proof fn lemma_parse_tree_tokens(t: TreeV, rest: Seq<TokV>)
    ensures
        spec_parse(tree_tokens(t) + rest) == Ok::<(TreeV, Seq<TokV>), ErrV>((t, rest)),
    decreases t,
{
    let toks = tree_tokens(t) + rest;
    if t.kids.len() == 0 {
        assert(toks[0] == TokV::Atom(t.head));
        assert(toks.drop_first() =~= rest);
        assert((TreeV { head: t.head, kids: Seq::empty() }) =~= t);
    } else {
        let inner = kids_tokens(t.kids) + (seq![TokV::CloseParen] + rest);
        assert(toks =~= seq![TokV::OpenParen, TokV::Atom(t.head)] + inner);
        assert(toks[0] == TokV::OpenParen);
        assert(toks[1] == TokV::Atom(t.head));
        assert(toks.len() >= 2);
        assert(toks.skip(2) =~= inner);
        lemma_parse_kids_tokens(t.head, Seq::empty(), t.kids, rest);
        assert((TreeV { head: t.head, kids: Seq::<TreeV>::empty() + t.kids }) =~= t);
    }
}

proof fn lemma_parse_kids_tokens(head: Seq<char>, acc: Seq<TreeV>, ks: Seq<TreeV>, rest: Seq<TokV>)
    ensures
        spec_parse_kids(head, acc, kids_tokens(ks) + (seq![TokV::CloseParen] + rest)) == Ok::<
            (TreeV, Seq<TokV>),
            ErrV,
        >((TreeV { head, kids: acc + ks }, rest)),
    decreases ks,
{
    let toks = kids_tokens(ks) + (seq![TokV::CloseParen] + rest);
    if ks.len() == 0 {
        assert(toks =~= seq![TokV::CloseParen] + rest);
        assert(toks[0] is CloseParen);
        assert(toks.drop_first() =~= rest);
        assert((TreeV { head, kids: acc }) =~= (TreeV { head, kids: acc + ks }));
    } else {
        let rest1 = kids_tokens(ks.drop_first()) + (seq![TokV::CloseParen] + rest);
        assert(toks =~= tree_tokens(ks[0]) + rest1);
        lemma_parse_tree_tokens(ks[0], rest1);
        assert(spec_parse(toks) == Ok::<(TreeV, Seq<TokV>), ErrV>((ks[0], rest1)));
        if ks[0].kids.len() == 0 {
            assert(toks[0] == TokV::Atom(ks[0].head));
        } else {
            assert(toks[0] == TokV::OpenParen);
        }
        assert(!(toks[0] is CloseParen));
        lemma_spec_parse_consumes(toks);
        lemma_parse_kids_tokens(head, acc.push(ks[0]), ks.drop_first(), rest);
        assert(acc.push(ks[0]) + ks.drop_first() =~= acc + ks);
        assert((TreeV { head, kids: acc.push(ks[0]) + ks.drop_first() }) =~= (TreeV {
            head,
            kids: acc + ks,
        }));
    }
}

/// Every atom among the tokens is a well-formed head.
pub open spec fn wf_toks(toks: Seq<TokV>) -> bool {
    forall|i: int|
        0 <= i < toks.len() ==> ((#[trigger] toks[i]) is Atom ==> wf_head(toks[i]->Atom_0))
}

proof fn lemma_tokenize_wf(s: Seq<char>)
    ensures
        wf_toks(spec_tokenize(s)),
    decreases s.len(),
{
    if s.len() > 0 {
        if is_ws(s[0]) {
            lemma_tokenize_wf(s.drop_first());
        } else if s[0] == '(' || s[0] == ')' {
            lemma_tokenize_wf(s.drop_first());
            let toks = spec_tokenize(s);
            assert forall|i: int| 0 <= i < toks.len() implies ((#[trigger] toks[i]) is Atom
                ==> wf_head(toks[i]->Atom_0)) by {
                if i > 0 {
                    assert(toks[i] == spec_tokenize(s.drop_first())[i - 1]);
                }
            }
        } else {
            let k = atom_len(s) as int;
            crate::token::lemma_atom_len_chars(s);
            lemma_atom_len_le(s.drop_first());
            lemma_tokenize_wf(s.skip(k));
            assert(wf_head(s.take(k)));
            let toks = spec_tokenize(s);
            assert(toks == seq![TokV::Atom(s.take(k))].add(spec_tokenize(s.skip(k))));
            assert forall|i: int| 0 <= i < toks.len() implies ((#[trigger] toks[i]) is Atom
                ==> wf_head(toks[i]->Atom_0)) by {
                if i > 0 {
                    assert(toks[i] == spec_tokenize(s.skip(k))[i - 1]);
                }
            }
        }
    }
}

proof fn lemma_parse_wf(toks: Seq<TokV>)
    requires
        wf_toks(toks),
    ensures
        spec_parse(toks) matches Ok((t, rest)) ==> wf_tree(t) && wf_toks(rest),
    decreases toks.len(), 0int,
{
    if toks.len() >= 2 && toks[0] is OpenParen && toks[1] is Atom {
        assert(wf_toks(toks.skip(2))) by {
            assert(forall|i: int| 0 <= i < toks.skip(2).len() ==> toks.skip(2)[i] == toks[i + 2]);
        }
        assert(wf_head(toks[1]->Atom_0));
        lemma_parse_kids_wf(toks[1]->Atom_0, Seq::empty(), toks.skip(2));
    } else if toks.len() > 0 && toks[0] is Atom {
        assert(wf_toks(toks.drop_first())) by {
            assert(forall|i: int|
                0 <= i < toks.drop_first().len() ==> toks.drop_first()[i] == toks[i + 1]);
        }
        assert(wf_tree(TreeV { head: toks[0]->Atom_0, kids: Seq::empty() }));
    }
}

proof fn lemma_parse_kids_wf(head: Seq<char>, acc: Seq<TreeV>, toks: Seq<TokV>)
    requires
        wf_toks(toks),
        wf_head(head),
        forall|i: int| 0 <= i < acc.len() ==> wf_tree(#[trigger] acc[i]),
    ensures
        spec_parse_kids(head, acc, toks) matches Ok((t, rest)) ==> wf_tree(t) && wf_toks(rest),
    decreases toks.len(), 1int,
{
    if toks.len() == 0 {
    } else if toks[0] is CloseParen {
        assert(wf_tree(TreeV { head, kids: acc }));
        assert(wf_toks(toks.drop_first())) by {
            assert(forall|i: int|
                0 <= i < toks.drop_first().len() ==> toks.drop_first()[i] == toks[i + 1]);
        }
    } else {
        lemma_parse_wf(toks);
        lemma_spec_parse_consumes(toks);
        match spec_parse(toks) {
            Ok((kid, rest)) => {
                if rest.len() < toks.len() {
                    assert(forall|i: int|
                        0 <= i < acc.push(kid).len() ==> wf_tree(#[trigger] acc.push(kid)[i]));
                    lemma_parse_kids_wf(head, acc.push(kid), rest);
                }
            },
            Err(e) => {},
        }
    }
}

/// Every tree the parser builds has well-formed heads.
pub proof fn lemma_parse_text_wf(s: Seq<char>, t: TreeV)
    requires
        spec_parse_text(s) == Ok::<TreeV, ErrV>(t),
    ensures
        wf_tree(t),
{
    lemma_tokenize_wf(s);
    lemma_parse_wf(spec_tokenize(s));
}

/// Any tree with well-formed heads, rendered to bracket text, parses back
/// to itself exactly.
pub proof fn lemma_render_parses(t: TreeV)
    requires
        wf_tree(t),
    ensures
        spec_parse_text(spec_render(t)) == Ok::<TreeV, ErrV>(t),
{
    lemma_tokenize_render(t, Seq::empty());
    assert(spec_render(t) + Seq::<char>::empty() =~= spec_render(t));
    lemma_parse_tree_tokens(t, Seq::empty());
    assert(spec_tokenize(Seq::<char>::empty()) =~= Seq::<TokV>::empty());
    assert(tree_tokens(t) + Seq::<TokV>::empty() =~= tree_tokens(t));
}

/// The round trip: a tree the parser built, rendered back to bracket text
/// and parsed again, comes back equal — head and children, recursively.
pub proof fn lemma_round_trip(s: Seq<char>, t: TreeV)
    requires
        spec_parse_text(s) == Ok::<TreeV, ErrV>(t),
    ensures
        spec_parse_text(spec_render(t)) == Ok::<TreeV, ErrV>(t),
{
    lemma_parse_text_wf(s, t);
    lemma_render_parses(t);
}

proof fn lemma_render_kids_snoc(ks: Seq<TreeV>, t: TreeV)
    ensures
        render_kids(ks.push(t)) =~= render_kids(ks) + (seq![' '] + spec_render(t)),
    decreases ks,
{
    assert(render_kids(ks.push(t)) == seq![' '] + spec_render(ks.push(t)[0]) + render_kids(
        ks.push(t).drop_first(),
    ));
    if ks.len() == 0 {
        assert(ks.push(t)[0] == t);
        assert(ks.push(t).drop_first() =~= Seq::<TreeV>::empty());
        assert(render_kids(Seq::<TreeV>::empty()) == Seq::<char>::empty());
        assert(seq![' '] + spec_render(t) + Seq::<char>::empty() =~= render_kids(ks) + (seq![' ']
            + spec_render(t)));
    } else {
        lemma_render_kids_snoc(ks.drop_first(), t);
        assert(ks.push(t)[0] == ks[0]);
        assert(ks.push(t).drop_first() =~= ks.drop_first().push(t));
        assert(seq![' '] + spec_render(ks[0]) + (render_kids(ks.drop_first()) + (seq![' ']
            + spec_render(t))) =~= (seq![' '] + spec_render(ks[0]) + render_kids(
            ks.drop_first(),
        )) + (seq![' '] + spec_render(t)));
    }
}

impl Node {
    /// The canonical bracket text of this tree. Where every head is a
    /// well-formed atom, parsing the text again yields an equal tree.
    #[verifier::loop_isolation(false)]
    pub fn to_text(&self) -> (r: String)
        ensures
            r@ == spec_render(self@),
        decreases self,
    {
        proof {
            lemma_node_view(*self);
        }
        if self.kids.is_empty() {
            return self.head.clone();
        }
        let mut out = "(".to_owned();
        proof {
            reveal_strlit("(");
            assert(("(")@ =~= seq!['(']);
        }
        out.append(self.head.as_str());
        let mut i: usize = 0;
        proof {
            assert(self@.kids.take(0) =~= Seq::<TreeV>::empty());
            assert(out@ =~= seq!['('] + self@.head + render_kids(self@.kids.take(0)));
        }
        while i < self.kids.len()
            invariant
                i <= self.kids@.len(),
                out@ == seq!['('] + self@.head + render_kids(self@.kids.take(i as int)),
            decreases self.kids@.len() - i,
        {
            out.append(" ");
            let kid_text = self.kids[i].to_text();
            out.append(kid_text.as_str());
            proof {
                reveal_strlit(" ");
                assert((" ")@ =~= seq![' ']);
                assert(self.kids@[i as int]@ == self@.kids[i as int]);
                lemma_render_kids_snoc(self@.kids.take(i as int), self@.kids[i as int]);
                assert(self@.kids.take(i + 1) =~= self@.kids.take(i as int).push(
                    self@.kids[i as int],
                ));
                assert(out@ =~= seq!['('] + self@.head + render_kids(self@.kids.take(i + 1)));
            }
            i += 1;
        }
        out.append(")");
        proof {
            reveal_strlit(")");
            assert((")")@ =~= seq![')']);
            assert(self@.kids.take(i as int) =~= self@.kids);
            assert(out@ =~= seq!['('] + self@.head + render_kids(self@.kids) + seq![')']);
        }
        out
    }
}

} // verus!
