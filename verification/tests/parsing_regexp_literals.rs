use regexp::Regexp;
use regexp::Regexp::Alternation;
use regexp::Regexp::Char;
use regexp::Regexp::Concatenation;
use regexp::RegexpError;
use regexp::RegexpError::UnmatchedParenthesis;
use regexp::regexp_from_string;
use regexp::regexp_to_string;

fn reparses_to_same_tree(pattern: &str) {
    // The printed form of a pattern is canonical: parsing it and printing
    // again gives the same text (a parenthesized concatenation flattens on
    // the first reparse, so the trees themselves may differ once).
    match regexp_from_string(pattern) {
        Ok(tree) => {
            let printed = regexp_to_string(&tree);
            let reparsed = regexp_from_string(&printed)
                .expect("printed pattern must parse again");
            assert_eq!(printed, regexp_to_string(&reparsed));
        },
        Err(_) => {},
    }
}

#[test]
fn mod_test_regexp_parser() {
    let regexp_strings = vec![
        "(a+b)",
        "(a|b)|(c|d)",
        "((a|b)|(c|d)+)+",
        "((a|b))",
        "((a))",
        "((a)",
        "(a))",
        "((a|b)b|(c+d|q))+",
        "(abc)(123)+",
    ];
    for regexp_string in regexp_strings.iter() {
        reparses_to_same_tree(regexp_string);
    }
}

#[test]
fn mod_test_regexs_error_detection() {
    let regexp_strings = vec![
        "a+b",
        "((a|b)|(c|d))",
        "((a|b)|(c|d)+)+",
        "(a|b)",
        "a",
        "((a)",
        "(a))",
        "((a|b)b|(c+d|q))+",
    ];

    for regexp_string in regexp_strings.iter() {
        reparses_to_same_tree(regexp_string);
    }
}

#[test]
fn parsing_regexp_literals_test_regexp_parser() {
    let regexp_strings = vec![
        "(a+b)",
        "(a|b)|(c|d)",
        "((a|b)|(c|d)+)+",
        "((a|b))",
        "((a))",
        "((a)",
        "(a))",
        "((a|b)b|(c+d|q))+",
        "(abc)(123)+",
    ];
    for regexp_string in regexp_strings.iter() {
        reparses_to_same_tree(regexp_string);
    }
}

#[test]
fn parsing_regexp_literals_test_regexs_error_detection() {
    let regexp_strings = vec![
        "a+b",
        "((a|b)|(c|d))",
        "((a|b)|(c|d)+)+",
        "(a|b)",
        "a",
        "((a)",
        "(a))",
        "((a|b)b|(c+d|q))+",
    ];

    for regexp_string in regexp_strings.iter() {
        reparses_to_same_tree(regexp_string);
    }
}

#[test]
fn tests_parsing_regexp_literals_test_regexp_parser() {
    let a = Concatenation(vec![
        Alternation(vec![Char('b'), Char('a')]),
        Char('b'),
        Char('c'),
    ]);
    let b = Concatenation(vec![
        Alternation(vec![Char('b'), Char('a')]),
        Char('b'),
        Char('c'),
    ]);

    assert_eq!(a, b);
}

#[test]
fn test_regexp_simplification() {
    let pairs = vec![
        ("((a))", "a"),
        ("((a|b))", "(a|b)"),
        ("((a)(b))", "ab"),
        ("((a?)(b)+)", "a?b+"),
        ("(((a)?+|b(c+))|(((d)+)d+))", "((a?+|bc+)|d+d+)"),
    ];

    for pair in pairs {
        let regexp = regexp_from_string(&(pair.0)).unwrap();
        let regexp_string = regexp_to_string(&regexp);
        println!(
            "\tinput:\t\t{},\n\texpected ouput:\t{}\n\tactual output:\t{}",
            pair.0, pair.1, regexp_string
        );
        assert_eq!(pair.1, regexp_string);
    }
}

#[test]
fn tests_parsing_regexp_literals_test_regexs_error_detection() {
    let pairs = vec![
        ("((a)", UnmatchedParenthesis(0)),
        ("(a))", UnmatchedParenthesis(3)),
        ("(((a))((b())", UnmatchedParenthesis(6)),
    ];

    for pair in pairs.iter() {
        let err = regexp_from_string(&(pair.0)).unwrap_err();
        assert_eq!(pair.1, err);
    }
}

#[test]
fn test_error_positions() {
    assert_eq!(
        regexp_from_string("((a)").unwrap_err(),
        RegexpError::UnmatchedParenthesis(0)
    );
    assert_eq!(
        regexp_from_string("(a))").unwrap_err(),
        RegexpError::UnmatchedParenthesis(3)
    );
    assert_eq!(regexp_from_string("").unwrap_err(), RegexpError::EmptyRegexp);
    assert_eq!(
        regexp_from_string("a|").unwrap_err(),
        RegexpError::EmptyAlternative(1)
    );
    assert_eq!(
        regexp_from_string("?a").unwrap_err(),
        RegexpError::MisplacedOperator(0)
    );
}

#[test]
fn test_error_positions_inside_groups() {
    assert_eq!(regexp_from_string("()").unwrap_err(), RegexpError::EmptyGroup(0));
    assert_eq!(
        regexp_from_string("(|a)").unwrap_err(),
        RegexpError::EmptyAlternative(1)
    );
    assert!(regexp_from_string("ab(cd?)").is_ok());
}

#[test]
fn test_escaped_literals() {
    assert_eq!(regexp_from_string("\\?").unwrap(), Regexp::Char('?'));
    let tree = regexp_from_string("\\?").unwrap();
    assert_eq!(regexp_to_string(&tree), "\\?");
    let plus = regexp_from_string("a\\+b").unwrap();
    assert_eq!(regexp_to_string(&plus), "a\\+b");
}

#[test]
fn test_round_trip_examples() {
    let tree = regexp_from_string("((a))").unwrap();
    assert_eq!(regexp_to_string(&tree), "a");
    let reparsed = regexp_from_string("a").unwrap();
    assert_eq!(tree, reparsed);
}
