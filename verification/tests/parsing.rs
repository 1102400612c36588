use cfg_learn::parse_tokens;
use cfg_learn::Node;
use cfg_learn::Token;
use cfg_learn::Token::CloseParen;
use cfg_learn::Token::OpenParen;

fn atom(s: &str) -> Token {
    Token::Atom(s.to_string())
}

fn leaf(head: &str) -> Node {
    Node { head: head.to_string(), kids: vec![] }
}

fn node(head: &str, kids: Vec<Node>) -> Node {
    Node { head: head.to_string(), kids }
}

fn cons(head: &str, kid: &str) -> Node {
    node(head, vec![leaf(kid)])
}

#[test]
fn lib_test_parse_tokens() {
    assert_eq!(parse_tokens(""), vec![]);
    assert_eq!(
        parse_tokens("(A S (D)F)"),
        vec![
            OpenParen,
            atom("A"),
            atom("S"),
            OpenParen,
            atom("D"),
            CloseParen,
            atom("F"),
            CloseParen
        ]
    );
    assert_eq!(parse_tokens("       (     "), vec![OpenParen]);
    assert_eq!(parse_tokens("asdf"), vec![atom("asdf")]);
    assert_eq!(
        parse_tokens("(np~asdf~det wiggily)  woo)"),
        vec![
            OpenParen,
            atom("np~asdf~det"),
            atom("wiggily"),
            CloseParen,
            atom("woo"),
            CloseParen
        ]
    );
}

#[test]
fn tree_test_parse_tokens() {
    assert_eq!(parse_tokens(""), vec![]);
    assert_eq!(
        parse_tokens("(A S (D)F)"),
        vec![
            OpenParen,
            atom("A"),
            atom("S"),
            OpenParen,
            atom("D"),
            CloseParen,
            atom("F"),
            CloseParen
        ]
    );
    assert_eq!(parse_tokens("       (     "), vec![OpenParen]);
    assert_eq!(parse_tokens("asdf"), vec![atom("asdf")]);
    assert_eq!(
        parse_tokens("(np~asdf~det wiggily)  woo)"),
        vec![
            OpenParen,
            atom("np~asdf~det"),
            atom("wiggily"),
            CloseParen,
            atom("woo"),
            CloseParen
        ]
    );
}

#[test]
fn lib_test_parse() {
    assert_eq!(Node::from_str("bob"), Ok(leaf("bob")));
    assert_eq!(
        Node::from_str("(A B C)"),
        Ok(Node {
            head: "A".to_string(),
            kids: vec![leaf("B"), leaf("C")]
        })
    );

    assert_eq!(
        Node::from_str(
            r#"
    (TOP
      (S (NP (DT The) (NN luxury) (NN auto) (NN maker))
      (NP (JJ last) (NN year))
      (VP (VBD sold) (NP (CD 1,214) (NNS cars))
      (PP (IN in) (NP (DT the) (NNP U.S.))))))
  "#
        ),
        Ok(node(
            "TOP",
            vec![node(
                "S",
                vec![
                    node(
                        "NP",
                        vec![
                            cons("DT", "The"),
                            cons("NN", "luxury"),
                            cons("NN", "auto"),
                            cons("NN", "maker"),
                        ]
                    ),
                    node("NP", vec![cons("JJ", "last"), cons("NN", "year"),]),
                    node(
                        "VP",
                        vec![
                            cons("VBD", "sold"),
                            node("NP", vec![cons("CD", "1,214"), cons("NNS", "cars"),]),
                            node(
                                "PP",
                                vec![
                                    cons("IN", "in"),
                                    node("NP", vec![cons("DT", "the"), cons("NNP", "U.S."),]),
                                ]
                            )
                        ]
                    )
                ]
            )]
        ))
    );
}

#[test]
fn tree_test_parse() {
    assert_eq!(Node::from_str("bob"), Ok(leaf("bob")));
    assert_eq!(
        Node::from_str("(A B C)"),
        Ok(Node {
            head: "A".to_string(),
            kids: vec![leaf("B"), leaf("C")]
        })
    );

    assert_eq!(
        Node::from_str(
            r#"
    (TOP
      (S (NP (DT The) (NN luxury) (NN auto) (NN maker))
      (NP (JJ last) (NN year))
      (VP (VBD sold) (NP (CD 1,214) (NNS cars))
      (PP (IN in) (NP (DT the) (NNP U.S.))))))
  "#
        ),
        Ok(node(
            "TOP",
            vec![node(
                "S",
                vec![
                    node(
                        "NP",
                        vec![
                            cons("DT", "The"),
                            cons("NN", "luxury"),
                            cons("NN", "auto"),
                            cons("NN", "maker"),
                        ]
                    ),
                    node("NP", vec![cons("JJ", "last"), cons("NN", "year"),]),
                    node(
                        "VP",
                        vec![
                            cons("VBD", "sold"),
                            node("NP", vec![cons("CD", "1,214"), cons("NNS", "cars"),]),
                            node(
                                "PP",
                                vec![
                                    cons("IN", "in"),
                                    node("NP", vec![cons("DT", "the"), cons("NNP", "U.S."),]),
                                ]
                            )
                        ]
                    )
                ]
            )]
        ))
    );
}

#[test]
fn parse_errors_name_what_was_expected() {
    assert_eq!(
        Node::from_str(""),
        Err(cfg_learn::ParseErr::ExpectedTree { found: None })
    );
    assert_eq!(
        Node::from_str(")x"),
        Err(cfg_learn::ParseErr::ExpectedTree { found: Some(Token::CloseParen) })
    );
    assert_eq!(
        Node::from_str("("),
        Err(cfg_learn::ParseErr::ExpectedAtom { found: None })
    );
    assert_eq!(
        Node::from_str("(()"),
        Err(cfg_learn::ParseErr::ExpectedAtom { found: Some(Token::OpenParen) })
    );
    assert_eq!(
        Node::from_str("(A B"),
        Err(cfg_learn::ParseErr::ExpectedClose)
    );
    assert_eq!(
        Node::from_str("a b"),
        Err(cfg_learn::ParseErr::TrailingInput { rest: vec![atom("b")] })
    );
}

#[test]
fn round_trip_through_text() {
    let text = "(TOP (S (NP (DT the) (NN cat)) (VP (VBD sat))))";
    let tree = Node::from_str(text).unwrap();
    let rendered = tree.to_text();
    assert_eq!(rendered, text.to_string());
    let again = Node::from_str(&rendered).unwrap();
    assert_eq!(again, tree);

    let bare = Node::from_str("   bob  ").unwrap();
    assert_eq!(Node::from_str(&bare.to_text()), Ok(leaf("bob")));
}
