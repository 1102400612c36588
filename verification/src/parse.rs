//! Recursive-descent parsing of a token sequence into one tree.
//!
//! Grammar: `tree := Atom | '(' Atom tree* ')'`. A bare atom is a leaf;
//! an opening parenthesis must be followed by the node's head atom, then
//! child trees up to the matching closing parenthesis.
use crate::token::{parse_tokens, spec_tokenize, toks_view, TokV, Token};
use crate::tree::{lemma_node_view, lemma_nodes_view, lemma_nodes_view_push, nodes_view, Node,
    TreeV};
use vstd::prelude::*;

verus! {

/// A parse failure: what was expected, and what stood there instead
/// (`None` for end of input).
#[derive(Debug, PartialEq)]
pub enum ParseErr {
    /// A head atom was expected.
    ExpectedAtom { found: Option<Token> },
    /// A `(` or a bare atom was expected.
    ExpectedTree { found: Option<Token> },
    /// End of input arrived while a `)` was still owed.
    ExpectedClose,
    /// One complete tree was parsed but tokens remain.
    TrailingInput { rest: Vec<Token> },
}

/// Mathematical model of a parse failure.
pub enum ErrV {
    ExpectedAtom { found: Option<TokV> },
    ExpectedTree { found: Option<TokV> },
    ExpectedClose,
    TrailingInput { rest: Seq<TokV> },
}

impl View for ParseErr {
    type V = ErrV;

    open spec fn view(&self) -> ErrV {
        match self {
            ParseErr::ExpectedAtom { found: None } => ErrV::ExpectedAtom { found: None },
            ParseErr::ExpectedAtom { found: Some(t) } => ErrV::ExpectedAtom { found: Some(t@) },
            ParseErr::ExpectedTree { found: None } => ErrV::ExpectedTree { found: None },
            ParseErr::ExpectedTree { found: Some(t) } => ErrV::ExpectedTree { found: Some(t@) },
            ParseErr::ExpectedClose => ErrV::ExpectedClose,
            ParseErr::TrailingInput { rest } => ErrV::TrailingInput { rest: toks_view(rest@) },
        }
    }
}

/// What parsing one tree from the front of `toks` yields: the tree and the
/// tokens after it, or the failure the grammar dictates.
pub open spec fn spec_parse(toks: Seq<TokV>) -> Result<(TreeV, Seq<TokV>), ErrV>
    decreases toks.len(), 0int,
{
    if toks.len() == 0 {
        Err(ErrV::ExpectedTree { found: None })
    } else {
        match toks[0] {
            TokV::Atom(s) => Ok((TreeV { head: s, kids: Seq::empty() }, toks.drop_first())),
            TokV::CloseParen => Err(ErrV::ExpectedTree { found: Some(TokV::CloseParen) }),
            TokV::OpenParen => {
                if toks.len() == 1 {
                    Err(ErrV::ExpectedAtom { found: None })
                } else {
                    match toks[1] {
                        TokV::Atom(h) => spec_parse_kids(h, Seq::empty(), toks.skip(2)),
                        t => Err(ErrV::ExpectedAtom { found: Some(t) }),
                    }
                }
            },
        }
    }
}

/// Continues a node with head `head` and the children parsed so far in
/// `acc`, consuming child trees until the matching closing parenthesis.
pub open spec fn spec_parse_kids(head: Seq<char>, acc: Seq<TreeV>, toks: Seq<TokV>) -> Result<
    (TreeV, Seq<TokV>),
    ErrV,
>
    decreases toks.len(), 1int,
{
    if toks.len() == 0 {
        Err(ErrV::ExpectedClose)
    } else if toks[0] is CloseParen {
        Ok((TreeV { head, kids: acc }, toks.drop_first()))
    } else {
        match spec_parse(toks) {
            // The guard keeps the recursion well-founded; its else branch is
            // never taken, since a successful parse consumes at least one
            // token (lemma_spec_parse_consumes).
            Ok((kid, rest)) => if rest.len() < toks.len() {
                spec_parse_kids(head, acc.push(kid), rest)
            } else {
                Err(ErrV::ExpectedClose)
            },
            Err(e) => Err(e),
        }
    }
}

/// A successful parse consumes at least one token.
pub proof fn lemma_spec_parse_consumes(toks: Seq<TokV>)
    ensures
        spec_parse(toks) matches Ok((t, rest)) ==> rest.len() < toks.len(),
    decreases toks.len(), 0int,
{
    if toks.len() >= 2 && toks[0] is OpenParen && toks[1] is Atom {
        lemma_spec_parse_kids_consumes(toks[1]->Atom_0, Seq::empty(), toks.skip(2));
    }
}

proof fn lemma_spec_parse_kids_consumes(head: Seq<char>, acc: Seq<TreeV>, toks: Seq<TokV>)
    ensures
        spec_parse_kids(head, acc, toks) matches Ok((t, rest)) ==> rest.len() < toks.len(),
    decreases toks.len(), 1int,
{
    if toks.len() == 0 || toks[0] is CloseParen {
    } else {
        lemma_spec_parse_consumes(toks);
        match spec_parse(toks) {
            Ok((kid, rest)) => {
                if rest.len() < toks.len() {
                    lemma_spec_parse_kids_consumes(head, acc.push(kid), rest);
                }
            },
            Err(e) => {},
        }
    }
}

/// A cursor over a token sequence.
pub struct Parser<'a> {
    pub tokens: &'a Vec<Token>,
    pub pos: usize,
}

impl<'a> Parser<'a> {
    /// The cursor stands inside the token sequence.
    pub open spec fn wf(self) -> bool {
        self.pos <= self.tokens@.len()
    }

    /// The tokens not consumed yet.
    pub open spec fn remaining(self) -> Seq<TokV> {
        toks_view(self.tokens@).skip(self.pos as int)
    }

    /// Whether every token has been consumed.
    pub fn done(&self) -> (r: bool)
        requires
            self.wf(),
        ensures
            r == (self.remaining().len() == 0),
    {
        self.pos == self.tokens.len()
    }

    /// Removes and returns the next token.
    pub fn next_token(&mut self) -> (r: Option<&'a Token>)
        requires
            old(self).wf(),
        ensures
            final(self).wf(),
            final(self).tokens == old(self).tokens,
            old(self).remaining().len() == 0 ==> r is None && *final(self) == *old(self),
            old(self).remaining().len() > 0 ==> (r matches Some(t) && t@ == old(
                self,
            ).remaining()[0] && final(self).remaining() == old(self).remaining().drop_first()),
    {
        if self.pos == self.tokens.len() {
            None
        } else {
            let toks: &'a Vec<Token> = self.tokens;
            let t = &toks[self.pos];
            self.pos = self.pos + 1;
            proof {
                assert(old(self).remaining().drop_first() =~= self.remaining());
            }
            Some(t)
        }
    }

    /// Consumes one token, which must be an atom, and returns its text.
    pub fn expect_atom(&mut self) -> (r: Result<String, ParseErr>)
        requires
            old(self).wf(),
        ensures
            final(self).wf(),
            final(self).tokens == old(self).tokens,
            match r {
                Ok(s) => old(self).remaining().len() > 0 && (old(self).remaining()[0] matches
                    TokV::Atom(t) && s@ == t && final(self).remaining() == old(
                    self,
                ).remaining().drop_first()),
                Err(e) => {
                    &&& (old(self).remaining().len() == 0 ==> e@ == (ErrV::ExpectedAtom {
                        found: None,
                    }))
                    &&& (old(self).remaining().len() > 0 ==> !(old(self).remaining()[0] is Atom)
                        && e@ == (ErrV::ExpectedAtom { found: Some(old(self).remaining()[0]) }))
                },
            },
    {
        match self.next_token() {
            None => Err(ParseErr::ExpectedAtom { found: None }),
            Some(t) => match t {
                Token::Atom(b) => Ok(b.clone()),
                _ => Err(ParseErr::ExpectedAtom { found: Some(t.dup()) }),
            },
        }
    }

    /// Parses one tree from the cursor, leaving the cursor on the token
    /// after it; fails exactly as `spec_parse` dictates.
    #[verifier::loop_isolation(false)]
    pub fn parse(&mut self) -> (r: Result<Node, ParseErr>)
        requires
            old(self).wf(),
        ensures
            final(self).wf(),
            final(self).tokens == old(self).tokens,
            match r {
                Ok(node) => spec_parse(old(self).remaining()) == Ok::<(TreeV, Seq<TokV>), ErrV>(
                    (node@, final(self).remaining()),
                ),
                Err(e) => spec_parse(old(self).remaining()) == Err::<(TreeV, Seq<TokV>), ErrV>(e@),
            },
        decreases self.tokens@.len() - self.pos,
    {
        let ghost rem0 = old(self).remaining();
        let mut node: Node;
        match self.next_token() {
            None => {
                return Err(ParseErr::ExpectedTree { found: None });
            },
            Some(t) => match t {
                Token::Atom(b) => {
                    let leaf = Node { head: b.clone(), kids: Vec::new() };
                    proof {
                        lemma_node_view(leaf);
                        assert(rem0[0] == TokV::Atom(b@));
                        assert(leaf@.kids =~= Seq::<TreeV>::empty());
                        assert(leaf@ =~= (TreeV { head: b@, kids: Seq::empty() }));
                    }
                    return Ok(leaf);
                },
                Token::CloseParen => {
                    return Err(ParseErr::ExpectedTree { found: Some(t.dup()) });
                },
                Token::OpenParen => {
                    proof {
                        assert(rem0[0] == TokV::OpenParen);
                    }
                    match self.expect_atom() {
                        Ok(h) => {
                            node = Node { head: h, kids: Vec::new() };
                            proof {
                                lemma_node_view(node);
                                assert(rem0.drop_first()[0] == rem0[1]);
                                assert(rem0.drop_first().drop_first() =~= rem0.skip(2));
                                assert(node@.kids =~= Seq::<TreeV>::empty());
                                assert(rem0[1] == TokV::Atom(h@));
                            }
                        },
                        Err(e) => {
                            proof {
                                if rem0.len() >= 2 {
                                    assert(rem0.drop_first()[0] == rem0[1]);
                                }
                            }
                            return Err(e);
                        },
                    }
                },
            },
        }
        let ghost head0 = node@.head;
        loop
            invariant
                self.wf(),
                self.tokens == old(self).tokens,
                node@.head == head0,
                self.remaining().len() < rem0.len(),
                spec_parse_kids(head0, node@.kids, self.remaining()) == spec_parse(rem0),
            decreases self.tokens@.len() - self.pos,
        {
            let ghost rem = self.remaining();
            if self.done() {
                proof {
                    assert(spec_parse_kids(head0, node@.kids, rem) == Err::<
                        (TreeV, Seq<TokV>),
                        ErrV,
                    >(ErrV::ExpectedClose));
                }
                return Err(ParseErr::ExpectedClose);
            }
            let toks: &'a Vec<Token> = self.tokens;
            proof {
                assert(rem[0] == toks_view(self.tokens@)[self.pos as int]);
                assert(rem[0] == self.tokens@[self.pos as int]@);
            }
            match &toks[self.pos] {
                Token::CloseParen => {
                    proof {
                        assert(rem[0] is CloseParen);
                        assert(spec_parse_kids(head0, node@.kids, rem) == Ok::<
                            (TreeV, Seq<TokV>),
                            ErrV,
                        >((TreeV { head: head0, kids: node@.kids }, rem.drop_first())));
                        assert(node@ =~= (TreeV { head: head0, kids: node@.kids }));
                    }
                    self.next_token();
                    return Ok(node);
                },
                _ => {
                    proof {
                        assert(!(rem[0] is CloseParen));
                        lemma_spec_parse_consumes(rem);
                    }
                    let ghost kv = node@.kids;
                    match self.parse() {
                        Ok(kid) => {
                            proof {
                                lemma_nodes_view_push(node.kids@, kid);
                                lemma_node_view(node);
                            }
                            node.kids.push(kid);
                            proof {
                                lemma_node_view(node);
                                assert(node@.kids =~= kv.push(kid@));
                                assert(spec_parse_kids(head0, kv, rem) == spec_parse_kids(
                                    head0,
                                    kv.push(kid@),
                                    self.remaining(),
                                ));
                                assert(self.remaining().len() == self.tokens@.len() - self.pos);
                            }
                        },
                        Err(e) => {
                            return Err(e);
                        },
                    }
                },
            }
        }
    }
}

/// What parsing a whole text yields: the tree of its single bracket
/// expression, or the failure the grammar dictates.
pub open spec fn spec_parse_text(s: Seq<char>) -> Result<TreeV, ErrV> {
    match spec_parse(spec_tokenize(s)) {
        Ok((t, rest)) => if rest.len() == 0 {
            Ok(t)
        } else {
            Err(ErrV::TrailingInput { rest })
        },
        Err(e) => Err(e),
    }
}

impl Node {
    /// Parses a text holding exactly one bracket expression into its tree.
    #[verifier::loop_isolation(false)]
    pub fn from_str(s: &str) -> (r: Result<Node, ParseErr>)
        ensures
            match r {
                Ok(node) => spec_parse_text(s@) == Ok::<TreeV, ErrV>(node@),
                Err(e) => spec_parse_text(s@) == Err::<TreeV, ErrV>(e@),
            },
    {
        let tokens = parse_tokens(s);
        let mut parser = Parser { tokens: &tokens, pos: 0 };
        proof {
            assert(parser.remaining() =~= toks_view(tokens@));
        }
        let result = match parser.parse() {
            Ok(n) => n,
            Err(e) => {
                return Err(e);
            },
        };
        if !parser.done() {
            let mut rest: Vec<Token> = Vec::new();
            let mut j = parser.pos;
            while j < tokens.len()
                invariant
                    parser.pos <= j <= tokens@.len(),
                    toks_view(rest@) =~= toks_view(tokens@).subrange(parser.pos as int, j as int),
                decreases tokens@.len() - j,
            {
                let ghost pre = rest@;
                let d = tokens[j].dup();
                rest.push(d);
                proof {
                    assert(pre.push(d)[pre.len() as int] == d);
                    assert(forall|k: int| 0 <= k < pre.len() ==> pre.push(d)[k] == pre[k]);
                    assert forall|k: int| 0 <= k < rest@.len() implies toks_view(rest@)[k]
                        == toks_view(tokens@).subrange(parser.pos as int, j + 1)[k] by {
                        assert(toks_view(rest@)[k] == rest@[k]@);
                        if k < pre.len() {
                            assert(rest@[k] == pre[k]);
                            assert(toks_view(pre)[k] == toks_view(tokens@).subrange(
                                parser.pos as int,
                                j as int,
                            )[k]);
                        } else {
                            assert(rest@[k] == d);
                            assert(d@ == tokens@[j as int]@);
                        }
                    }
                    assert(toks_view(rest@) =~= toks_view(tokens@).subrange(
                        parser.pos as int,
                        j + 1,
                    ));
                }
                j += 1;
            }
            proof {
                assert(toks_view(tokens@).subrange(
                    parser.pos as int,
                    tokens@.len() as int,
                ) =~= parser.remaining());
            }
            return Err(ParseErr::TrailingInput { rest });
        }
        Ok(result)
    }
}

} // verus!
