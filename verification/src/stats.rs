//! Rule extraction and statistics: walking a forest, deriving its grammar
//! rules, counting them, and rendering the probability report.
use crate::textops::{join_seq, join_strings, lemma_lex_total_ordering, lex_leq_fn, pairs_view,
    sorted_strings, strs_view};
use crate::tree::{lemma_node_view, lemma_nodes_view, nodes_view, preorder_kids, preorder_of, Node,
    TreeV};
use defaultmap::DefaultHashMap;
use std::hash::Hash;
use vstd::prelude::*;
use vstd::string::StrSliceExecFns;

verus! {

broadcast use vstd::seq_lib::group_seq_lib_default;

#[verifier::external_type_specification]
#[verifier::external_body]
#[verifier::reject_recursive_types(K)]
#[verifier::reject_recursive_types(V)]
pub struct ExDefaultHashMap<K: Eq + Hash, V>(DefaultHashMap<K, V>);

/// A frequency table keyed by symbol.
pub type LhsCounts = DefaultHashMap<String, u64>;

/// A frequency table keyed by (symbol, expansion) pairs.
pub type PairCounts = DefaultHashMap<(String, String), u64>;

/// What a count table keyed by symbol holds: each stored key's text
/// mapped to its stored count.
pub uninterp spec fn lhs_counts_of(m: DefaultHashMap<String, u64>) -> Map<Seq<char>, u64>;

/// The value a count table keyed by symbol hands out for absent keys.
pub uninterp spec fn lhs_counts_default(m: DefaultHashMap<String, u64>) -> u64;

/// What a count table keyed by (symbol, expansion) pairs holds.
pub uninterp spec fn pair_counts_of(m: DefaultHashMap<(String, String), u64>) -> Map<
    (Seq<char>, Seq<char>),
    u64,
>;

/// The value a pair count table hands out for absent keys.
pub uninterp spec fn pair_counts_default(m: DefaultHashMap<(String, String), u64>) -> u64;

/// The empty symbol table contents.
pub open spec fn no_lhs_counts() -> Map<Seq<char>, u64> {
    Map::empty()
}

/// Relies on defaultmap::DefaultHashMap::new: an empty table whose
/// default for missing keys is u64's default value, zero.
#[verifier::external_body]
fn new_lhs_counts() -> (m: LhsCounts)
    ensures
        lhs_counts_of(m) == no_lhs_counts(),
        lhs_counts_default(m) == 0u64,
{
    DefaultHashMap::new()
}

/// The empty pair table contents.
pub open spec fn no_pair_counts() -> Map<(Seq<char>, Seq<char>), u64> {
    Map::empty()
}

/// Relies on defaultmap::DefaultHashMap::new: an empty table whose
/// default for missing keys is u64's default value, zero.
#[verifier::external_body]
fn new_pair_counts() -> (m: PairCounts)
    ensures
        pair_counts_of(m) == no_pair_counts(),
        pair_counts_default(m) == 0u64,
{
    DefaultHashMap::new()
}

/// Relies on defaultmap::DefaultHashMap::get: the stored value, or the
/// table's default where the key is absent.
#[verifier::external_body]
fn lhs_counts_get(m: &DefaultHashMap<String, u64>, k: &String) -> (r: u64)
    ensures
        r == if lhs_counts_of(*m).dom().contains(k@) {
            lhs_counts_of(*m)[k@]
        } else {
            lhs_counts_default(*m)
        },
{
    *m.get::<String, &String>(k)
}

/// Relies on defaultmap::DefaultHashMap::get: the stored value, or the
/// table's default where the key is absent.
#[verifier::external_body]
fn pair_counts_get(m: &DefaultHashMap<(String, String), u64>, k: &(String, String)) -> (r: u64)
    ensures
        r == if pair_counts_of(*m).dom().contains((k.0@, k.1@)) {
            pair_counts_of(*m)[(k.0@, k.1@)]
        } else {
            pair_counts_default(*m)
        },
{
    *m.get::<(String, String), &(String, String)>(k)
}

/// Relies on defaultmap::DefaultHashMap::insert, which stores the value
/// under the key as HashMap::insert does; the default is untouched.
#[verifier::external_body]
fn lhs_counts_set(m: &mut DefaultHashMap<String, u64>, k: String, v: u64)
    ensures
        lhs_counts_of(*final(m)) == lhs_counts_of(*old(m)).insert(k@, v),
        lhs_counts_default(*final(m)) == lhs_counts_default(*old(m)),
{
    m.insert(k, v);
}

/// Relies on defaultmap::DefaultHashMap::insert, which stores the value
/// under the key as HashMap::insert does; the default is untouched.
#[verifier::external_body]
fn pair_counts_set(m: &mut DefaultHashMap<(String, String), u64>, k: (String, String), v: u64)
    ensures
        pair_counts_of(*final(m)) == pair_counts_of(*old(m)).insert((k.0@, k.1@), v),
        pair_counts_default(*final(m)) == pair_counts_default(*old(m)),
{
    m.insert(k, v);
}

/// A node that contributes a grammar rule: it has children, and not a
/// single child that is itself a leaf (which would be a
/// part-of-speech-to-word production).
pub open spec fn is_expansion(t: TreeV) -> bool {
    t.kids.len() > 0 && !(t.kids.len() == 1 && t.kids[0].kids.len() == 0)
}

/// The models of a sequence of node references, elementwise.
pub open spec fn refs_view(s: Seq<&Node>) -> Seq<TreeV> {
    s.map_values(|n: &Node| n@)
}

/// The rule-contributing nodes of a forest, in preorder across the trees.
pub open spec fn expansions_of(ts: Seq<TreeV>) -> Seq<TreeV> {
    preorder_kids(ts).filter(|t: TreeV| is_expansion(t))
}

/// The rule a node contributes: its head, and its expansion.
pub open spec fn rule_of(t: TreeV) -> (Seq<char>, Seq<char>) {
    (t.head, t.rhs_spec())
}

/// The rules of a forest, one per rule-contributing node, in preorder.
pub open spec fn rules_of(ts: Seq<TreeV>) -> Seq<(Seq<char>, Seq<char>)> {
    expansions_of(ts).map_values(|t: TreeV| rule_of(t))
}

proof fn lemma_preorder_kids_snoc(ks: Seq<TreeV>, t: TreeV)
    ensures
        preorder_kids(ks.push(t)) == preorder_kids(ks) + preorder_of(t),
    decreases ks.len(),
{
    if ks.len() == 0 {
        assert(ks.push(t)[0] == t);
        assert(ks.push(t).drop_first() =~= Seq::<TreeV>::empty());
        assert(preorder_kids(Seq::<TreeV>::empty()) == Seq::<TreeV>::empty());
        assert(preorder_kids(ks.push(t)) == preorder_of(t).add(Seq::<TreeV>::empty()));
        assert(preorder_of(t).add(Seq::<TreeV>::empty()) =~= Seq::<TreeV>::empty() + preorder_of(
            t,
        ));
    } else {
        lemma_preorder_kids_snoc(ks.drop_first(), t);
        assert(ks.push(t)[0] == ks[0]);
        assert(ks.push(t).drop_first() =~= ks.drop_first().push(t));
        assert(preorder_of(ks[0]) + (preorder_kids(ks.drop_first()) + preorder_of(t)) =~= (
        preorder_of(ks[0]) + preorder_kids(ks.drop_first())) + preorder_of(t));
    }
}

/// The rule-contributing nodes of a forest, in preorder across the trees,
/// as references into it.
#[verifier::loop_isolation(false)]
pub fn get_all_trees<'a>(trees: &'a Vec<Node>) -> (r: Vec<&'a Node>)
    ensures
        refs_view(r@) == expansions_of(nodes_view(trees@)),
{
    let ghost fv = nodes_view(trees@);
    let ghost pred = |t: TreeV| is_expansion(t);
    proof {
        lemma_nodes_view(trees@);
        assert(fv.take(0) =~= Seq::<TreeV>::empty());
        assert(preorder_kids(Seq::<TreeV>::empty()) == Seq::<TreeV>::empty());
        reveal(Seq::filter);
    }
    let mut result: Vec<&Node> = Vec::new();
    let mut i: usize = 0;
    while i < trees.len()
        invariant
            i <= trees@.len(),
            refs_view(result@) == expansions_of(fv.take(i as int)),
        decreases trees@.len() - i,
    {
        let mut it = trees[i].preorder();
        let ghost mut seen: Seq<TreeV> = Seq::empty();
        proof {
            assert(seen + it.remaining() =~= preorder_of(fv[i as int]));
            assert(seen.filter(pred) == Seq::<TreeV>::empty());
            assert(refs_view(result@) + seen.filter(pred) =~= refs_view(result@));
        }
        loop
            invariant
                seen + it.remaining() == preorder_of(fv[i as int]),
                refs_view(result@) == expansions_of(fv.take(i as int)) + seen.filter(pred),
            decreases it.remaining().len(),
        {
            let n = match it.next() {
                Some(n) => n,
                None => {
                    break ;
                },
            };
            proof {
                lemma_node_view(*n);
                if n.kids@.len() == 1 {
                    lemma_node_view(n.kids@[0]);
                }
            }
            let keep = !n.kids.is_empty() && !(n.kids.len() == 1 && n.kids[0].kids.is_empty());
            let ghost pre_seen = seen;
            proof {
                seen = seen.push(n@);
                assert(keep == pred(n@));
                reveal(Seq::filter);
                assert(seen.drop_last() =~= pre_seen);
                assert(seen.last() == n@);
                assert(seen + it.remaining() =~= pre_seen + (seq![n@] + it.remaining()));
            }
            if keep {
                let ghost pre = result@;
                result.push(n);
                proof {
                    assert(pre.push(n)[pre.len() as int] == n);
                    assert(forall|k: int| 0 <= k < pre.len() ==> pre.push(n)[k] == pre[k]);
                    assert(seen.filter(pred) == pre_seen.filter(pred).push(n@));
                    assert forall|k: int| 0 <= k < result@.len() implies refs_view(result@)[k] == (
                    expansions_of(fv.take(i as int)) + seen.filter(pred))[k] by {
                        assert(refs_view(result@)[k] == result@[k]@);
                        if k < pre.len() {
                            assert(result@[k] == pre[k]);
                            assert(refs_view(pre)[k] == pre[k]@);
                        } else {
                            assert(result@[k] == n);
                        }
                    }
                    assert(refs_view(result@) =~= expansions_of(fv.take(i as int)) + seen.filter(
                        pred,
                    ));
                }
            } else {
                proof {
                    assert(seen.filter(pred) == pre_seen.filter(pred));
                }
            }
        }
        proof {
            assert(seen =~= preorder_of(fv[i as int]));
            assert(fv.take(i + 1).drop_last() =~= fv.take(i as int));
            assert(fv.take(i + 1) =~= fv.take(i as int).push(fv[i as int]));
            lemma_preorder_kids_snoc(fv.take(i as int), fv[i as int]);
            assert(expansions_of(fv.take(i + 1)) == preorder_kids(fv.take(i as int)).filter(pred)
                + preorder_of(fv[i as int]).filter(pred));
        }
        i += 1;
    }
    proof {
        assert(fv.take(i as int) =~= fv);
    }
    result
}

} // verus!

verus! {

/// How often `l` stands as the left-hand side among the rules.
pub open spec fn count_lhs(rs: Seq<(Seq<char>, Seq<char>)>, l: Seq<char>) -> nat
    decreases rs.len(),
{
    if rs.len() == 0 {
        0
    } else {
        count_lhs(rs.drop_last(), l) + if rs.last().0 == l {
            1nat
        } else {
            0nat
        }
    }
}

/// How often the rule `p` occurs among the rules.
pub open spec fn count_rule(rs: Seq<(Seq<char>, Seq<char>)>, p: (Seq<char>, Seq<char>)) -> nat
    decreases rs.len(),
{
    if rs.len() == 0 {
        0
    } else {
        count_rule(rs.drop_last(), p) + if rs.last() == p {
            1nat
        } else {
            0nat
        }
    }
}

/// The rules with later repetitions dropped: each distinct rule once, in
/// order of first occurrence.
pub open spec fn distinct_rules(rs: Seq<(Seq<char>, Seq<char>)>) -> Seq<(Seq<char>, Seq<char>)>
    decreases rs.len(),
{
    if rs.len() == 0 {
        Seq::empty()
    } else {
        let d = distinct_rules(rs.drop_last());
        if rs.drop_last().contains(rs.last()) {
            d
        } else {
            d.push(rs.last())
        }
    }
}

/// A rule occurs at most as often as its left-hand side, at most once per
/// rule, and at least once if it is among the rules at all.
pub proof fn lemma_counts_basic(rs: Seq<(Seq<char>, Seq<char>)>, p: (Seq<char>, Seq<char>))
    ensures
        count_rule(rs, p) <= count_lhs(rs, p.0),
        count_lhs(rs, p.0) <= rs.len(),
        rs.contains(p) ==> count_rule(rs, p) >= 1,
    decreases rs.len(),
{
    if rs.len() > 0 {
        lemma_counts_basic(rs.drop_last(), p);
        if rs.contains(p) {
            let i = choose|i: int| 0 <= i < rs.len() && rs[i] == p;
            if i < rs.len() - 1 {
                assert(rs.drop_last()[i] == p);
                assert(rs.drop_last().contains(p));
            }
        }
    }
}

/// Left-hand sides are counted no more often than there are rules.
pub proof fn lemma_count_lhs_le_len(rs: Seq<(Seq<char>, Seq<char>)>, l: Seq<char>)
    ensures
        count_lhs(rs, l) <= rs.len(),
    decreases rs.len(),
{
    if rs.len() > 0 {
        lemma_count_lhs_le_len(rs.drop_last(), l);
    }
}

/// Every distinct rule is one of the rules.
pub proof fn lemma_distinct_rules_sub(rs: Seq<(Seq<char>, Seq<char>)>)
    ensures
        forall|x: (Seq<char>, Seq<char>)|
            #[trigger] distinct_rules(rs).contains(x) ==> rs.contains(x),
    decreases rs.len(),
{
    if rs.len() > 0 {
        lemma_distinct_rules_sub(rs.drop_last());
        assert forall|x: (Seq<char>, Seq<char>)| #[trigger]
            distinct_rules(rs).contains(x) implies rs.contains(x) by {
            let d = distinct_rules(rs.drop_last());
            if rs.drop_last().contains(rs.last()) {
                assert(d.contains(x));
            } else {
                let j = choose|j: int| 0 <= j < d.push(rs.last()).len() && d.push(rs.last())[j]
                    == x;
                if j < d.len() {
                    assert(d[j] == x);
                    assert(d.contains(x));
                } else {
                    assert(x == rs.last());
                    assert(rs[rs.len() - 1] == x);
                }
            }
            if rs.drop_last().contains(x) {
                let k = choose|k: int| 0 <= k < rs.drop_last().len() && rs.drop_last()[k] == x;
                assert(rs[k] == x);
            }
        }
    }
}

/// Whether `l` is a synthetic descendant of `sym`: `sym`, a tilde, and
/// more.
pub open spec fn is_synth_of(l: Seq<char>, sym: Seq<char>) -> bool {
    let p = sym + "~"@;
    p.len() <= l.len() && l.take(p.len() as int) == p
}

/// Whether a rule with left-hand side `l` is selected for the report:
/// `l` is one of the symbols to show exactly, or, when synthetic
/// descendants are included, begins with one of them followed by a tilde.
pub open spec fn rule_shown(l: Seq<char>, show: Seq<Seq<char>>, synthetic: bool) -> bool {
    show.contains(l) || (synthetic && exists|i: int|
        0 <= i < show.len() && is_synth_of(l, #[trigger] show[i]))
}

/// The probability of a rule given its left-hand side, in millionths,
/// rounded to the nearest (half away from zero).
pub open spec fn prob_micro(pc: nat, lc: nat) -> nat
    recommends
        0 < lc,
{
    ((2_000_000 * pc + lc) / (2 * lc)) as nat
}

pub open spec fn digit_char(d: nat) -> char {
    if d == 0 {
        '0'
    } else if d == 1 {
        '1'
    } else if d == 2 {
        '2'
    } else if d == 3 {
        '3'
    } else if d == 4 {
        '4'
    } else if d == 5 {
        '5'
    } else if d == 6 {
        '6'
    } else if d == 7 {
        '7'
    } else if d == 8 {
        '8'
    } else {
        '9'
    }
}

/// A probability in millionths rendered with six decimal places.
pub open spec fn fmt_micro(m: nat) -> Seq<char> {
    if m >= 1_000_000 {
        "1.000000"@
    } else {
        seq!['0', '.'] + seq![
            digit_char(m / 100_000 % 10),
            digit_char(m / 10_000 % 10),
            digit_char(m / 1_000 % 10),
            digit_char(m / 100 % 10),
            digit_char(m / 10 % 10),
            digit_char(m % 10),
        ]
    }
}

/// One report line: `lhs -> rhs = probability`.
pub open spec fn spec_line(p: (Seq<char>, Seq<char>), pc: nat, lc: nat) -> Seq<char> {
    p.0 + " -> "@ + p.1 + " = "@ + fmt_micro(prob_micro(pc, lc))
}

/// Whether a rule is selected for the report.
pub open spec fn shown_pred(show: Seq<Seq<char>>, synthetic: bool) -> spec_fn(
    (Seq<char>, Seq<char>),
) -> bool {
    |p: (Seq<char>, Seq<char>)| rule_shown(p.0, show, synthetic)
}

/// The line a rule is rendered to, given the counts among `rs`.
pub open spec fn line_fn(rs: Seq<(Seq<char>, Seq<char>)>) -> spec_fn(
    (Seq<char>, Seq<char>),
) -> Seq<char> {
    |p: (Seq<char>, Seq<char>)|
        spec_line(p, count_rule(rs, p), count_lhs(rs, p.0))
}

/// The selected rules' lines, one per distinct rule, in first-occurrence
/// order.
pub open spec fn report_lines(
    rs: Seq<(Seq<char>, Seq<char>)>,
    show: Seq<Seq<char>>,
    synthetic: bool,
) -> Seq<Seq<char>> {
    distinct_rules(rs).filter(shown_pred(show, synthetic)).map_values(line_fn(rs))
}

/// The whole report of a forest: each selected distinct rule rendered as
/// `lhs -> rhs = probability`, the lines sorted lexicographically and
/// joined with newlines, with one trailing newline.
pub open spec fn spec_report(ts: Seq<TreeV>, show: Seq<Seq<char>>, synthetic: bool) -> Seq<char> {
    join_seq(
        report_lines(rules_of(ts), show, synthetic).sort_by(lex_leq_fn()),
        "\n"@,
    ) + "\n"@
}

} // verus!

verus! {

fn pair_eq(a: &(String, String), b: &(String, String)) -> (r: bool)
    ensures
        r == ((a.0@, a.1@) == (b.0@, b.1@)),
{
    a.0.eq(&b.0) && a.1.eq(&b.1)
}

/// The rules of a forest, one per rule-contributing node, in preorder
/// across the trees, each as its (left-hand side, right-hand side) texts.
#[verifier::loop_isolation(false)]
pub fn extract_rules(trees: &Vec<Node>) -> (r: Vec<(String, String)>)
    ensures
        pairs_view(r@) == rules_of(nodes_view(trees@)),
{
    let all = get_all_trees(trees);
    let ghost goal = rules_of(nodes_view(trees@));
    let mut rules: Vec<(String, String)> = Vec::new();
    let mut i: usize = 0;
    while i < all.len()
        invariant
            i <= all@.len(),
            goal.len() == all@.len(),
            forall|j: int| 0 <= j < all@.len() ==> goal[j] == rule_of(all@[j]@),
            rules@.len() == i,
            forall|j: int| 0 <= j < i ==> (rules@[j].0@, rules@[j].1@) == goal[j],
        decreases all@.len() - i,
    {
        let n: &Node = all[i];
        let l = n.lhs().to_owned();
        let rhs = n.rhs();
        let ghost pre = rules@;
        rules.push((l, rhs));
        proof {
            assert(rules@[i as int] == (l, rhs));
            assert(forall|j: int| 0 <= j < i ==> rules@[j] == pre[j]);
        }
        i += 1;
    }
    proof {
        assert forall|j: int| 0 <= j < rules@.len() implies pairs_view(rules@)[j] == goal[j] by {
            assert(pairs_view(rules@)[j] == (rules@[j].0@, rules@[j].1@));
        }
        assert(pairs_view(rules@) =~= goal);
    }
    rules
}

/// Each distinct rule once, in order of first occurrence.
#[verifier::loop_isolation(false)]
pub fn distinct_rules_vec(rules: &Vec<(String, String)>) -> (r: Vec<(String, String)>)
    ensures
        pairs_view(r@) == distinct_rules(pairs_view(rules@)),
{
    let ghost rv = pairs_view(rules@);
    let mut out: Vec<(String, String)> = Vec::new();
    let mut i: usize = 0;
    proof {
        assert(rv.take(0) =~= Seq::<(Seq<char>, Seq<char>)>::empty());
    }
    while i < rules.len()
        invariant
            i <= rules@.len(),
            rv.len() == rules@.len(),
            forall|j: int| 0 <= j < rules@.len() ==> rv[j] == (rules@[j].0@, rules@[j].1@),
            pairs_view(out@) == distinct_rules(rv.take(i as int)),
        decreases rules@.len() - i,
    {
        let mut found = false;
        let mut j: usize = 0;
        while j < i
            invariant
                j <= i <= rules@.len(),
                found == exists|k: int| 0 <= k < j && rv[k] == rv[i as int],
            decreases i - j,
        {
            if pair_eq(&rules[j], &rules[i]) {
                proof {
                    assert(rv[j as int] == rv[i as int]);
                }
                found = true;
            }
            j += 1;
        }
        proof {
            let tk = rv.take(i as int);
            if found {
                let k = choose|k: int| 0 <= k < i && rv[k] == rv[i as int];
                assert(tk[k] == rv[i as int]);
                assert(tk.contains(rv[i as int]));
            } else if tk.contains(rv[i as int]) {
                let k = choose|k: int| 0 <= k < tk.len() && tk[k] == rv[i as int];
                assert(rv[k] == rv[i as int]);
            }
            assert(found == rv.take(i as int).contains(rv[i as int]));
            assert(rv.take(i + 1).drop_last() =~= rv.take(i as int));
            assert(rv.take(i + 1).last() == rv[i as int]);
        }
        if !found {
            let ghost pre = out@;
            let c0 = rules[i].0.clone();
            let c1 = rules[i].1.clone();
            out.push((c0, c1));
            proof {
                assert forall|k: int| 0 <= k < out@.len() implies pairs_view(out@)[k]
                    == distinct_rules(rv.take(i + 1))[k] by {
                    assert(pairs_view(out@)[k] == (out@[k].0@, out@[k].1@));
                    if k < pre.len() {
                        assert(out@[k] == pre[k]);
                        assert(pairs_view(pre)[k] == (pre[k].0@, pre[k].1@));
                    } else {
                        assert(out@[k] == (c0, c1));
                    }
                }
                assert(pairs_view(out@) =~= distinct_rules(rv.take(i + 1)));
            }
        }
        i += 1;
    }
    proof {
        assert(rv.take(i as int) =~= rv);
    }
    out
}

/// Whether `l` begins with `sym` followed immediately by a tilde.
#[verifier::loop_isolation(false)]
fn is_synth_prefix(l: &String, sym: &String) -> (r: bool)
    ensures
        r == is_synth_of(l@, sym@),
{
    proof {
        reveal_strlit("~");
    }
    let ls = l.as_str();
    let ss = sym.as_str();
    let n = ss.unicode_len();
    let ll = ls.unicode_len();
    if ll <= n {
        proof {
            assert((sym@ + "~"@).len() > l@.len());
        }
        return false;
    }
    let mut j: usize = 0;
    while j < n
        invariant
            j <= n,
            forall|k: int| 0 <= k < j ==> l@[k] == sym@[k],
        decreases n - j,
    {
        if ls.get_char(j) != ss.get_char(j) {
            proof {
                assert(l@.take((sym@ + "~"@).len() as int)[j as int] != (sym@ + "~"@)[j as int]);
            }
            return false;
        }
        j += 1;
    }
    let tilde = ls.get_char(n);
    if tilde == '~' {
        proof {
            let p = sym@ + "~"@;
            assert(p.len() == sym@.len() + 1);
            assert(p[n as int] == '~');
            assert forall|k: int| 0 <= k < p.len() implies l@.take(p.len() as int)[k] == p[k] by {
                if k < n {
                    assert(p[k] == sym@[k]);
                }
            }
            assert(l@.take(p.len() as int) =~= p);
        }
        true
    } else {
        proof {
            assert((sym@ + "~"@)[n as int] == '~');
            assert(l@.take((sym@ + "~"@).len() as int)[n as int] == tilde);
        }
        false
    }
}

/// Whether a rule with left-hand side `l` is selected for the report.
#[verifier::loop_isolation(false)]
fn rule_shown_exec(l: &String, show: &Vec<String>, synthetic: bool) -> (r: bool)
    ensures
        r == rule_shown(l@, strs_view(show@), synthetic),
{
    let ghost sv = strs_view(show@);
    let mut i: usize = 0;
    while i < show.len()
        invariant
            i <= show@.len(),
            sv.len() == show@.len(),
            forall|k: int| 0 <= k < show@.len() ==> sv[k] == show@[k]@,
            forall|k: int| 0 <= k < i ==> sv[k] != l@,
            forall|k: int| 0 <= k < i ==> !(synthetic && is_synth_of(l@, sv[k])),
        decreases show@.len() - i,
    {
        if show[i].eq(l) {
            proof {
                assert(sv[i as int] == l@);
            }
            return true;
        }
        if synthetic && is_synth_prefix(l, &show[i]) {
            proof {
                assert(is_synth_of(l@, sv[i as int]));
            }
            return true;
        }
        i += 1;
    }
    proof {
        if sv.contains(l@) {
            let k = choose|k: int| 0 <= k < sv.len() && sv[k] == l@;
            assert(false);
        }
    }
    false
}

fn digit_str(d: u64) -> (r: &'static str)
    requires
        d < 10,
    ensures
        r@ == seq![digit_char(d as nat)],
{
    match d {
        0 => {
            proof {
                reveal_strlit("0");
                assert(("0")@ =~= seq![digit_char(0nat)]);
            }
            "0"
        },
        1 => {
            proof {
                reveal_strlit("1");
                assert(("1")@ =~= seq![digit_char(1nat)]);
            }
            "1"
        },
        2 => {
            proof {
                reveal_strlit("2");
                assert(("2")@ =~= seq![digit_char(2nat)]);
            }
            "2"
        },
        3 => {
            proof {
                reveal_strlit("3");
                assert(("3")@ =~= seq![digit_char(3nat)]);
            }
            "3"
        },
        4 => {
            proof {
                reveal_strlit("4");
                assert(("4")@ =~= seq![digit_char(4nat)]);
            }
            "4"
        },
        5 => {
            proof {
                reveal_strlit("5");
                assert(("5")@ =~= seq![digit_char(5nat)]);
            }
            "5"
        },
        6 => {
            proof {
                reveal_strlit("6");
                assert(("6")@ =~= seq![digit_char(6nat)]);
            }
            "6"
        },
        7 => {
            proof {
                reveal_strlit("7");
                assert(("7")@ =~= seq![digit_char(7nat)]);
            }
            "7"
        },
        8 => {
            proof {
                reveal_strlit("8");
                assert(("8")@ =~= seq![digit_char(8nat)]);
            }
            "8"
        },
        _ => {
            proof {
                reveal_strlit("9");
                assert(("9")@ =~= seq![digit_char(9nat)]);
            }
            "9"
        },
    }
}

/// The probability of a rule seen `pc` times under a left-hand side seen
/// `lc` times, rendered with six decimal places.
fn format_prob(pc: u64, lc: u64) -> (r: String)
    requires
        0 < pc <= lc,
    ensures
        r@ == fmt_micro(prob_micro(pc as nat, lc as nat)),
{
    let pcw: u128 = pc as u128;
    let lcw: u128 = lc as u128;
    proof {
        assert(pcw as int <= 0xffff_ffff_ffff_ffffint);
        assert(lcw as int <= 0xffff_ffff_ffff_ffffint);
        assert(2_000_000 * (pcw as int) <= 2_000_000 * 0xffff_ffff_ffff_ffffint);
    }
    let num: u128 = 2_000_000 * pcw + lcw;
    let den: u128 = 2 * lcw;
    let q: u128 = num / den;
    proof {
        let n = num as int;
        let d = den as int;
        assert(2_000_000 * (pcw as int) <= 2_000_000 * (lcw as int));
        assert(n < d * 1_000_001);
        vstd::arithmetic::div_mod::lemma_fundamental_div_mod(n, d);
        vstd::arithmetic::div_mod::lemma_mod_bound(n, d);
        assert(q as int <= 1_000_000) by (nonlinear_arith)
            requires
                n == d * (n / d) + n % d,
                q as int == n / d,
                0 <= n % d,
                n < d * 1_000_001,
                d > 0,
        ;
        assert(q as int == prob_micro(pc as nat, lc as nat));
    }
    let micro: u64 = q as u64;
    if micro == 1_000_000 {
        let r = "1.000000".to_owned();
        r
    } else {
        let mut r = "0.".to_owned();
        r.append(digit_str(micro / 100_000 % 10));
        r.append(digit_str(micro / 10_000 % 10));
        r.append(digit_str(micro / 1_000 % 10));
        r.append(digit_str(micro / 100 % 10));
        r.append(digit_str(micro / 10 % 10));
        r.append(digit_str(micro % 10));
        proof {
            reveal_strlit("0.");
            assert(("0.")@ =~= seq!['0', '.']);
            assert(r@ =~= fmt_micro(micro as nat));
        }
        r
    }
}

} // verus!

verus! {

/// The probability report over a forest: every distinct rule whose
/// left-hand side is selected, rendered as `lhs -> rhs = probability`
/// with the probability conditional on the left-hand side, the lines
/// sorted lexicographically and joined by newlines, with one trailing
/// newline. With `include_synthetic`, rules under synthetic descendants
/// of the selected symbols are selected too.
#[verifier::loop_isolation(false)]
pub fn grammar_report(trees: &Vec<Node>, to_show: &Vec<String>, include_synthetic: bool) -> (r:
    String)
    ensures
        r@ == spec_report(nodes_view(trees@), strs_view(to_show@), include_synthetic),
{
    let rules = extract_rules(trees);
    let distinct = distinct_rules_vec(&rules);
    let ghost rv = pairs_view(rules@);
    let ghost dv = pairs_view(distinct@);
    let ghost showv = strs_view(to_show@);
    let mut lhs_counts = new_lhs_counts();
    let mut pair_counts = new_pair_counts();
    let mut i: usize = 0;
    proof {
        assert(rv.take(0) =~= Seq::<(Seq<char>, Seq<char>)>::empty());
    }
    while i < rules.len()
        invariant
            i <= rules@.len(),
            rv.len() == rules@.len(),
            forall|j: int| 0 <= j < rules@.len() ==> rv[j] == (rules@[j].0@, rules@[j].1@),
            lhs_counts_default(lhs_counts) == 0,
            pair_counts_default(pair_counts) == 0,
            forall|l2: Seq<char>|
                #![trigger count_lhs(rv.take(i as int), l2)]
                (lhs_counts_of(lhs_counts).dom().contains(l2) <==> count_lhs(
                    rv.take(i as int),
                    l2,
                ) > 0) && (lhs_counts_of(lhs_counts).dom().contains(l2)
                    ==> lhs_counts_of(lhs_counts)[l2] == count_lhs(rv.take(i as int), l2)),
            forall|p2: (Seq<char>, Seq<char>)|
                #![trigger count_rule(rv.take(i as int), p2)]
                (pair_counts_of(pair_counts).dom().contains(p2) <==> count_rule(
                    rv.take(i as int),
                    p2,
                ) > 0) && (pair_counts_of(pair_counts).dom().contains(p2)
                    ==> pair_counts_of(pair_counts)[p2] == count_rule(rv.take(i as int), p2)),
        decreases rules@.len() - i,
    {
        let ghost prefix = rv.take(i as int);
        let c = lhs_counts_get(&lhs_counts, &rules[i].0);
        proof {
            lemma_count_lhs_le_len(prefix, rv[i as int].0);
            assert(rules@[i as int].0@ == rv[i as int].0);
            assert(c == count_lhs(prefix, rv[i as int].0));
            assert(c < u64::MAX);
        }
        let l = rules[i].0.clone();
        lhs_counts_set(&mut lhs_counts, l, c + 1);
        let k = (rules[i].0.clone(), rules[i].1.clone());
        let c2 = pair_counts_get(&pair_counts, &k);
        proof {
            lemma_counts_basic(prefix, rv[i as int]);
            assert((k.0@, k.1@) == rv[i as int]);
            assert(c2 == count_rule(prefix, rv[i as int]));
            assert(c2 < u64::MAX);
        }
        pair_counts_set(&mut pair_counts, k, c2 + 1);
        proof {
            let nextp = rv.take(i + 1);
            assert(nextp.drop_last() =~= prefix);
            assert(nextp.last() == rv[i as int]);
            assert forall|l2: Seq<char>|
                (lhs_counts_of(lhs_counts).dom().contains(l2) <==> #[trigger] count_lhs(
                    nextp,
                    l2,
                ) > 0) && (lhs_counts_of(lhs_counts).dom().contains(l2)
                ==> lhs_counts_of(lhs_counts)[l2] == count_lhs(nextp, l2)) by {
                assert(count_lhs(nextp, l2) == count_lhs(prefix, l2) + if rv[i as int].0 == l2 {
                    1nat
                } else {
                    0nat
                });
            }
            assert forall|p2: (Seq<char>, Seq<char>)|
                (pair_counts_of(pair_counts).dom().contains(p2) <==> #[trigger] count_rule(
                    nextp,
                    p2,
                ) > 0) && (pair_counts_of(pair_counts).dom().contains(p2)
                ==> pair_counts_of(pair_counts)[p2] == count_rule(nextp, p2)) by {
                assert(count_rule(nextp, p2) == count_rule(prefix, p2) + if rv[i as int] == p2 {
                    1nat
                } else {
                    0nat
                });
            }
        }
        i += 1;
    }
    proof {
        assert(rv.take(i as int) =~= rv);
        assert forall|l2: Seq<char>|
            (lhs_counts_of(lhs_counts).dom().contains(l2) <==> #[trigger] count_lhs(rv, l2) > 0)
            && (lhs_counts_of(lhs_counts).dom().contains(l2) ==> lhs_counts_of(lhs_counts)[l2]
            == count_lhs(rv, l2)) by {
            assert(count_lhs(rv.take(i as int), l2) == count_lhs(rv, l2));
        }
        assert forall|p2: (Seq<char>, Seq<char>)|
            (pair_counts_of(pair_counts).dom().contains(p2) <==> #[trigger] count_rule(rv, p2) > 0)
            && (pair_counts_of(pair_counts).dom().contains(p2) ==> pair_counts_of(pair_counts)[p2]
            == count_rule(rv, p2)) by {
            assert(count_rule(rv.take(i as int), p2) == count_rule(rv, p2));
        }
        lemma_distinct_rules_sub(rv);
        reveal(Seq::filter);
        assert(dv.take(0) =~= Seq::<(Seq<char>, Seq<char>)>::empty());
    }
    let ghost pred = shown_pred(showv, include_synthetic);
    let ghost linef = line_fn(rv);
    let mut lines: Vec<String> = Vec::new();
    let mut di: usize = 0;
    while di < distinct.len()
        invariant
            di <= distinct@.len(),
            dv.len() == distinct@.len(),
            forall|j: int| 0 <= j < distinct@.len() ==> dv[j] == (distinct@[j].0@, distinct@[j].1@),
            strs_view(lines@) == dv.take(di as int).filter(pred).map_values(linef),
        decreases distinct@.len() - di,
    {
        let shown = rule_shown_exec(&distinct[di].0, to_show, include_synthetic);
        proof {
            assert(distinct@[di as int].0@ == dv[di as int].0);
            assert(shown == pred(dv[di as int]));
            assert(dv.take(di + 1).drop_last() =~= dv.take(di as int));
            assert(dv.take(di + 1).last() == dv[di as int]);
            reveal(Seq::filter);
        }
        if shown {
            let lc = lhs_counts_get(&lhs_counts, &distinct[di].0);
            let pc = pair_counts_get(&pair_counts, &distinct[di]);
            proof {
                assert(dv == distinct_rules(rv));
                assert(distinct_rules(rv)[di as int] == dv[di as int]);
                assert(distinct_rules(rv).contains(dv[di as int]));
                assert(rv.contains(dv[di as int]));
                lemma_counts_basic(rv, dv[di as int]);
                assert(pc == count_rule(rv, dv[di as int]));
                assert(lc == count_lhs(rv, dv[di as int].0));
                assert(0 < pc <= lc);
            }
            let prob = format_prob(pc, lc);
            let mut line = distinct[di].0.clone();
            line.append(" -> ");
            line.append(distinct[di].1.as_str());
            line.append(" = ");
            line.append(prob.as_str());
            proof {
                assert(line@ == spec_line(
                    dv[di as int],
                    count_rule(rv, dv[di as int]),
                    count_lhs(rv, dv[di as int].0),
                ));
                assert(line@ == linef(dv[di as int]));
            }
            let ghost pre = lines@;
            lines.push(line);
            proof {
                assert(dv.take(di + 1).filter(pred) == dv.take(di as int).filter(pred).push(
                    dv[di as int],
                ));
                assert forall|k2: int| 0 <= k2 < lines@.len() implies strs_view(lines@)[k2]
                    == dv.take(di + 1).filter(pred).map_values(linef)[k2] by {
                    assert(strs_view(lines@)[k2] == lines@[k2]@);
                    if k2 < pre.len() {
                        assert(lines@[k2] == pre[k2]);
                        assert(strs_view(pre)[k2] == pre[k2]@);
                    } else {
                        assert(lines@[k2] == line);
                    }
                }
                assert(strs_view(lines@) =~= dv.take(di + 1).filter(pred).map_values(linef));
            }
        } else {
            proof {
                assert(dv.take(di + 1).filter(pred) == dv.take(di as int).filter(pred));
            }
        }
        di += 1;
    }
    proof {
        assert(dv.take(di as int) =~= dv);
    }
    let ghost lv = strs_view(lines@);
    let sorted = sorted_strings(lines);
    let joined = join_strings(&sorted, "\n");
    proof {
        lemma_lex_total_ordering();
        lv.lemma_sort_by_ensures(lex_leq_fn());
        vstd::seq_lib::lemma_sorted_unique(
            strs_view(sorted@),
            lv.sort_by(lex_leq_fn()),
            lex_leq_fn(),
        );
        assert(lv == report_lines(rv, showv, include_synthetic));
    }
    let mut out = joined;
    out.append("\n");
    out
}

} // verus!
