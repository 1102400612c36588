use cfg_learn::extract_rules;
use cfg_learn::get_all_trees;
use cfg_learn::grammar_report;
use cfg_learn::Node;

fn leaf(head: &str) -> Node {
    Node { head: head.to_string(), kids: vec![] }
}

fn node(head: &str, kids: Vec<Node>) -> Node {
    Node { head: head.to_string(), kids }
}

fn cons(head: &str, kid: &str) -> Node {
    node(head, vec![leaf(kid)])
}

fn shows(symbols: &[&str]) -> Vec<String> {
    symbols.iter().map(|s| s.to_string()).collect()
}

#[test]
fn test_to_cfg_str() {
    assert_eq!(
        node("a", vec![cons("b", "_"), cons("c", "_")]).to_cfg_str(),
        "a -> b c"
    );
    assert_eq!(cons("a", "b").to_cfg_str(), "a -> b");
}

#[test]
fn test_iteration() {
    let tree = node(
        "a",
        vec![
            cons("b", "floop"),
            cons("c", "doop"),
            node("d", vec![cons("e", "scoop")]),
        ],
    );

    // Normally we would filter the unaries, just want to verify this works
    // though.
    let mut got: Vec<String> = vec![];
    let mut it = tree.preorder();
    while let Some(t) = it.next() {
        got.push(t.to_cfg_str());
    }
    assert_eq!(
        got,
        vec![
            "a -> b c d",
            "b -> floop",
            "floop -> ",
            "c -> doop",
            "doop -> ",
            "d -> e",
            "e -> scoop",
            "scoop -> "
        ]
    );
}

#[test]
fn rule_extraction_excludes_unary_to_leaf() {
    let forest = vec![node("a", vec![cons("b", "floop"), cons("c", "doop")])];
    let all = get_all_trees(&forest);
    assert_eq!(all.len(), 1);
    assert_eq!(all[0].lhs(), "a");
    let rules = extract_rules(&forest);
    assert_eq!(rules, vec![("a".to_string(), "b c".to_string())]);
}

#[test]
fn left_factor_rewrites_wide_node() {
    let mut tree = node("a", vec![leaf("b"), leaf("c"), leaf("d")]);
    tree.left_factor();
    assert_eq!(
        tree,
        node("a", vec![leaf("b"), node("a~b", vec![leaf("c"), leaf("d")])])
    );

    let mut once = node("x", vec![leaf("p"), leaf("q"), leaf("r"), leaf("s")]);
    once.left_factor();
    let mut twice = node("x", vec![leaf("p"), leaf("q"), leaf("r"), leaf("s")]);
    twice.left_factor();
    twice.left_factor();
    assert_eq!(once, twice);
    assert_eq!(
        once,
        node(
            "x",
            vec![
                leaf("p"),
                node(
                    "x~p",
                    vec![leaf("q"), node("x~p~q", vec![leaf("r"), leaf("s")])]
                )
            ]
        )
    );
}

#[test]
fn halves_get_six_decimal_places() {
    let forest = vec![
        node("NAC", vec![leaf("X"), leaf("Y")]),
        node("NAC", vec![node("Z", vec![leaf("z")])]),
    ];
    let report = grammar_report(&forest, &shows(&["NAC"]), false);
    assert_eq!(report, "NAC -> X Y = 0.500000\nNAC -> Z = 0.500000\n");
}

#[test]
fn thirds_round_to_nearest_millionth() {
    let forest = vec![
        node("S", vec![leaf("X"), leaf("Y")]),
        node("S", vec![leaf("X"), leaf("Y")]),
        node("S", vec![leaf("Y"), leaf("X")]),
    ];
    let report = grammar_report(&forest, &shows(&["S"]), false);
    assert_eq!(report, "S -> X Y = 0.666667\nS -> Y X = 0.333333\n");
}

#[test]
fn report_lines_are_sorted() {
    let forest = vec![
        node("B", vec![leaf("x"), leaf("y")]),
        node("A", vec![leaf("x"), leaf("y")]),
    ];
    let report = grammar_report(&forest, &shows(&["A", "B"]), false);
    assert_eq!(report, "A -> x y = 1.000000\nB -> x y = 1.000000\n");
}

#[test]
fn synthetic_descendants_are_selected_but_not_lookalikes() {
    let mut nac = node("NAC", vec![leaf("A"), leaf("B"), leaf("C")]);
    let mut lookalike = node("NACX", vec![leaf("D"), leaf("E"), leaf("F")]);
    nac.left_factor();
    lookalike.left_factor();
    let forest = vec![nac, lookalike];
    let report = grammar_report(&forest, &shows(&["NAC"]), true);
    assert_eq!(
        report,
        "NAC -> A NAC~A = 1.000000\nNAC~A -> B C = 1.000000\n"
    );

    let exact_only = grammar_report(&forest, &shows(&["NAC"]), false);
    assert_eq!(exact_only, "NAC -> A NAC~A = 1.000000\n");
}

#[test]
fn left_factored_forest_reports_both_passes() {
    let mut trees = vec![node(
        "TOP",
        vec![cons("DT", "w"), cons("NN", "w"), cons("VB", "w")],
    )];
    let unfactored = grammar_report(&trees, &shows(&["TOP"]), false);
    assert_eq!(unfactored, "TOP -> DT NN VB = 1.000000\n");
    for t in trees.iter_mut() {
        t.left_factor();
    }
    let factored = grammar_report(&trees, &shows(&["TOP"]), true);
    assert_eq!(
        factored,
        "TOP -> DT TOP~DT = 1.000000\nTOP~DT -> NN VB = 1.000000\n"
    );
}
