use ted_search::label_dict::LabelDict;
use ted_search::parsing::{
    parse_single, parse_tree, parse_tree_directly, parse_tree_tokens, tree_to_bracket,
    update_label_dict, TreeParseError,
};
use ted_search::tree::{ParsedTree, TreeNode};

fn bytes(tokens: &[&str]) -> Vec<Vec<u8>> {
    tokens.iter().map(|t| t.as_bytes().to_vec()).collect()
}

fn dict_from(entries: &[(&str, (i32, usize))]) -> LabelDict {
    let mut ld = LabelDict::new();
    for (label, (id, count)) in entries {
        ld.insert(label.as_bytes(), *id, *count);
    }
    ld
}

fn leaf(label: i32) -> TreeNode {
    TreeNode { label, children: vec![] }
}

#[test]
fn test_parses_into_tokens() {
    let input = "{NP{NP{NNS{Fees}}}{QP{CD{1}}{CD{3\\}/4}}}{Interpunction{.}}}".to_owned();
    let tokens = parse_tree_tokens(&input);
    assert!(tokens.is_ok());
    let tokens = tokens.unwrap();
    assert_eq!(tokens.len(), 33);
    assert_eq!(
        tokens,
        bytes(&[
            "{",
            "NP",
            "{",
            "NP",
            "{",
            "NNS",
            "{",
            "Fees",
            "}",
            "}",
            "}",
            "{",
            "QP",
            "{",
            "CD",
            "{",
            "1",
            "}",
            "}",
            "{",
            "CD",
            "{",
            "3\\}/4",
            "}",
            "}",
            "}",
            "{",
            "Interpunction",
            "{",
            ".",
            "}",
            "}",
            "}"
        ])
    );
}

#[test]
fn test_parses_into_tokens_2() {
    let input = "{einsteinstrasse{1}{3}}".to_owned();
    let tokens = parse_tree_tokens(&input);
    assert!(tokens.is_ok());
    let tokens = tokens.unwrap();
    assert_eq!(
        tokens,
        bytes(&["{", "einsteinstrasse", "{", "1", "}", "{", "3", "}", "}"])
    );
}

#[test]
fn test_parses_escaped() {
    let input = String::from(r#"{article{key{An optimization of \log data}}}"#);
    let tokens = parse_tree_tokens(&input);
    assert!(tokens.is_ok());
    let tokens = tokens.unwrap();
    assert_eq!(
        tokens,
        bytes(&[
            "{",
            "article",
            "{",
            "key",
            "{",
            r"An optimization of \log data",
            "}",
            "}",
            "}"
        ])
    );
}

#[test]
fn test_parses_into_tree_arena() {
    let input = "{einsteinstrasse{1}{3}}".to_owned();
    let tokens = parse_tree_tokens(&input);
    let tokens = tokens.unwrap();
    let ld = dict_from(&[("einsteinstrasse", (1, 1)), ("1", (2, 1)), ("3", (3, 1))]);
    let tree_arena = parse_tree(&tokens, &ld).unwrap();
    let arena = ParsedTree {
        root: Some(TreeNode { label: 1, children: vec![leaf(2), leaf(3)] }),
    };

    assert_eq!(tree_arena, arena);
}

#[test]
fn test_updated_label_dict() {
    let input = "{einsteinstrasse{1}{3}}".to_owned();
    let tokens = parse_tree_tokens(&input).unwrap();
    let input2 = "{weinsteinstrasse{3}{2}}".to_owned();
    let tokens2 = parse_tree_tokens(&input2).unwrap();
    let mut ld = LabelDict::new();
    let token_col: Vec<Vec<Vec<u8>>> = vec![tokens, tokens2];
    update_label_dict(&token_col, &mut ld);

    let tld = dict_from(&[
        ("einsteinstrasse", (1, 1)),
        ("1", (2, 1)),
        ("3", (3, 2)),
        ("weinsteinstrasse", (4, 1)),
        ("2", (5, 1)),
    ]);
    assert_eq!(ld, tld, "Label dicts are equal");
}

#[test]
fn tokenizer_rejects_unbalanced_and_short_input() {
    assert!(matches!(parse_tree_tokens("{a"), Err(TreeParseError::IncorrectFormat(_))));
    assert!(matches!(parse_tree_tokens("a"), Err(TreeParseError::IncorrectFormat(_))));
    assert!(matches!(parse_tree_tokens("{a}}"), Err(TreeParseError::IncorrectFormat(_))));
}

#[test]
fn parse_tree_reports_unknown_labels_and_bad_format() {
    let ld = dict_from(&[("a", (1, 1))]);
    let tokens = parse_tree_tokens("{a{b}}").unwrap();
    assert!(matches!(parse_tree(&tokens, &ld), Err(TreeParseError::TokenizerError)));
    let tokens = bytes(&["{", "a", "}", "{", "a", "}"]);
    assert!(matches!(parse_tree(&tokens, &ld), Err(TreeParseError::IncorrectFormat(_))));
}

#[test]
fn bracket_notation_round_trip() {
    let mut ld = LabelDict::new();
    let t = parse_single("{a{b{c}}{d}}".to_string(), &mut ld);
    // Labels are written as their identifiers.
    assert_eq!(tree_to_bracket(&t), "{1{2{3}}{4}}");
}

#[test]
fn direct_parsing_interns_and_builds() {
    let mut ld = LabelDict::new();
    let mut max_id: i32 = 0;
    let t = parse_tree_directly(b"{x{y}{x}}", &mut ld, &mut max_id).unwrap();
    assert_eq!(max_id, 2);
    assert_eq!(ld.get(b"x"), Some((1, 2)));
    assert_eq!(ld.get(b"y"), Some((2, 1)));
    assert_eq!(
        t,
        ParsedTree { root: Some(TreeNode { label: 1, children: vec![leaf(2), leaf(1)] }) }
    );
    assert!(parse_tree_directly(b"x", &mut ld, &mut max_id).is_err());
}

#[test]
fn tokenizer_reports_the_column_of_an_unclosed_label() {
    match parse_tree_tokens("{a}{b") {
        Err(TreeParseError::IncorrectFormat(msg)) => {
            assert_eq!(msg, "Label has no ending token near col 3");
        }
        other => panic!("unexpected result: {:?}", other),
    }
}
