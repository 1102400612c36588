//! Lexical scanning of bracket notation into a flat token sequence.
use vstd::prelude::*;
use vstd::string::StrSliceExecFns;

verus! {

/// A lexical token of the bracket notation.
#[derive(Debug)]
pub enum Token {
    OpenParen,
    CloseParen,
    Atom(String),
}

/// Mathematical model of a token.
pub enum TokV {
    OpenParen,
    CloseParen,
    Atom(Seq<char>),
}

impl View for Token {
    type V = TokV;

    open spec fn view(&self) -> TokV {
        match self {
            Token::OpenParen => TokV::OpenParen,
            Token::CloseParen => TokV::CloseParen,
            Token::Atom(s) => TokV::Atom(s@),
        }
    }
}

impl PartialEq for Token {
    fn eq(&self, other: &Token) -> (r: bool)
        ensures
            r == (self@ == other@),
    {
        match (self, other) {
            (Token::OpenParen, Token::OpenParen) => true,
            (Token::CloseParen, Token::CloseParen) => true,
            (Token::Atom(a), Token::Atom(b)) => a.eq(b),
            _ => false,
        }
    }
}

impl vstd::std_specs::cmp::PartialEqSpecImpl for Token {
    open spec fn obeys_eq_spec() -> bool {
        true
    }

    open spec fn eq_spec(&self, other: &Token) -> bool {
        self@ == other@
    }
}

impl Token {
    /// A copy of this token.
    pub fn dup(&self) -> (t: Token)
        ensures
            t@ == self@,
    {
        match self {
            Token::OpenParen => Token::OpenParen,
            Token::CloseParen => Token::CloseParen,
            Token::Atom(s) => Token::Atom(s.clone()),
        }
    }
}

/// The models of a token sequence, elementwise.
pub open spec fn toks_view(ts: Seq<Token>) -> Seq<TokV> {
    ts.map_values(|t: Token| t@)
}

/// The separator characters: space, tab, newline, carriage return.
pub open spec fn is_ws(c: char) -> bool {
    c == ' ' || c == '\t' || c == '\n' || c == '\r'
}

/// A character that may stand inside an atom: anything that is neither a
/// separator nor a parenthesis.
pub open spec fn is_name_char(c: char) -> bool {
    !(is_ws(c) || c == '(' || c == ')')
}

/// Whether `c` separates tokens.
pub fn is_ascii_whitespace(c: char) -> (r: bool)
    ensures
        r == is_ws(c),
{
    c == ' ' || c == '\t' || c == '\n' || c == '\r'
}

/// Whether `c` may stand inside an atom.
pub fn is_valid_name_char(c: char) -> (r: bool)
    ensures
        r == is_name_char(c),
{
    !(is_ascii_whitespace(c) || c == '(' || c == ')')
}

/// The length of the longest prefix of `s` made of atom characters.
pub open spec fn atom_len(s: Seq<char>) -> nat
    decreases s.len(),
{
    if s.len() == 0 || !is_name_char(s[0]) {
        0
    } else {
        1 + atom_len(s.drop_first())
    }
}

pub proof fn lemma_atom_len_le(t: Seq<char>)
    ensures
        atom_len(t) <= t.len(),
    decreases t.len(),
{
    if t.len() > 0 && is_name_char(t[0]) {
        lemma_atom_len_le(t.drop_first());
    }
}

/// Characterizes the atom length: it is `k` exactly when the first `k`
/// characters are atom characters and the text ends there or a separator
/// or parenthesis follows.
pub proof fn lemma_atom_len_is_pub(t: Seq<char>, k: int)
    requires
        0 <= k <= t.len(),
        forall|j: int| 0 <= j < k ==> is_name_char(t[j]),
        k == t.len() || !is_name_char(t[k]),
    ensures
        atom_len(t) == k,
{
    lemma_atom_len_is(t, k);
}

/// Every character inside the atom prefix is an atom character.
pub proof fn lemma_atom_len_chars(s: Seq<char>)
    ensures
        forall|j: int| 0 <= j < atom_len(s) ==> is_name_char(#[trigger] s[j]),
    decreases s.len(),
{
    lemma_atom_len_le(s);
    if s.len() > 0 && is_name_char(s[0]) {
        lemma_atom_len_chars(s.drop_first());
        assert forall|j: int| 0 <= j < atom_len(s) implies is_name_char(#[trigger] s[j]) by {
            if j > 0 {
                assert(s.drop_first()[j - 1] == s[j]);
                assert(is_name_char(s.drop_first()[j - 1]));
            }
        }
    }
}

proof fn lemma_atom_len_is(t: Seq<char>, k: int)
    requires
        0 <= k <= t.len(),
        forall|j: int| 0 <= j < k ==> is_name_char(t[j]),
        k == t.len() || !is_name_char(t[k]),
    ensures
        atom_len(t) == k,
    decreases k,
{
    if k > 0 {
        lemma_atom_len_is(t.drop_first(), k - 1);
    }
}

/// The token sequence of a text: separators are dropped, each parenthesis
/// is a token of its own, and every maximal run of other characters is one
/// atom token.
pub open spec fn spec_tokenize(s: Seq<char>) -> Seq<TokV>
    decreases s.len(),
    via spec_tokenize_decreases
{
    if s.len() == 0 {
        Seq::empty()
    } else if is_ws(s[0]) {
        spec_tokenize(s.drop_first())
    } else if s[0] == '(' {
        seq![TokV::OpenParen].add(spec_tokenize(s.drop_first()))
    } else if s[0] == ')' {
        seq![TokV::CloseParen].add(spec_tokenize(s.drop_first()))
    } else {
        let k = (1 + atom_len(s.drop_first())) as int;
        seq![TokV::Atom(s.take(k))].add(spec_tokenize(s.skip(k)))
    }
}

#[via_fn]
proof fn spec_tokenize_decreases(s: Seq<char>) {
    if s.len() > 0 {
        lemma_atom_len_le(s.drop_first());
    }
}

proof fn lemma_toks_view_push(ts: Seq<Token>, t: Token)
    ensures
        toks_view(ts.push(t)) =~= toks_view(ts).push(t@),
{
}

/// Scans a text into its token sequence. Total: any text scans, and
/// empty or all-separator text gives the empty sequence.
pub fn parse_tokens(s: &str) -> (r: Vec<Token>)
    ensures
        toks_view(r@) == spec_tokenize(s@),
{
    let n = s.unicode_len();
    let mut result: Vec<Token> = Vec::new();
    let mut i: usize = 0;
    proof {
        assert(s@.skip(0) =~= s@);
    }
    while i < n
        invariant
            n == s@.len(),
            i <= n,
            toks_view(result@).add(spec_tokenize(s@.skip(i as int))) == spec_tokenize(s@),
        decreases n - i,
    {
        let ghost pre = result@;
        let ghost rem = s@.skip(i as int);
        let c = s.get_char(i);
        assert(rem[0] == c);
        if is_ascii_whitespace(c) {
            i += 1;
            proof {
                assert(rem.drop_first() =~= s@.skip(i as int));
            }
        } else if c == '(' {
            result.push(Token::OpenParen);
            i += 1;
            proof {
                lemma_toks_view_push(pre, Token::OpenParen);
                assert(rem.drop_first() =~= s@.skip(i as int));
                assert(toks_view(result@).add(spec_tokenize(s@.skip(i as int))) =~= toks_view(
                    pre,
                ).add(spec_tokenize(rem)));
            }
        } else if c == ')' {
            result.push(Token::CloseParen);
            i += 1;
            proof {
                lemma_toks_view_push(pre, Token::CloseParen);
                assert(rem.drop_first() =~= s@.skip(i as int));
                assert(toks_view(result@).add(spec_tokenize(s@.skip(i as int))) =~= toks_view(
                    pre,
                ).add(spec_tokenize(rem)));
            }
        } else {
            let start = i;
            i += 1;
            while i < n && is_valid_name_char(s.get_char(i))
                invariant
                    n == s@.len(),
                    start < i <= n,
                    forall|j: int| start <= j < i ==> is_name_char(s@[j]),
                decreases n - i,
            {
                i += 1;
            }
            let text = s.substring_char(start, i).to_owned();
            let tok = Token::Atom(text);
            proof {
                lemma_atom_len_is(rem, i - start);
                assert(rem.take(i - start) =~= s@.subrange(start as int, i as int));
                assert(tok@ == TokV::Atom(rem.take(atom_len(rem) as int)));
                lemma_toks_view_push(pre, tok);
                assert(rem.skip(i - start) =~= s@.skip(i as int));
                assert(toks_view(pre.push(tok)).add(spec_tokenize(s@.skip(i as int))) =~= toks_view(
                    pre,
                ).add(spec_tokenize(rem)));
            }
            result.push(tok);
        }
    }
    proof {
        assert(s@.skip(n as int) =~= Seq::<char>::empty());
        assert(toks_view(result@).add(Seq::empty()) =~= toks_view(result@));
    }
    result
}

} // verus!
