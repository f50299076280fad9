use regexp::Inst;
use regexp::Inst::Char;
use regexp::Inst::Jump;
use regexp::Inst::Match;
use regexp::Inst::Split;
use regexp::compile_regexp;
use regexp::is_match;
use regexp::regexp_from_string;
use regexp::thompson_vm;

#[test]
fn compile_regexp_test() {
    let regexp = regexp_from_string("abc").unwrap();
    let insts = compile_regexp(&regexp);
    assert_eq!(insts.len(), 4);
}

#[test]
fn thompson_vm_match_tests() {
    let test_cases = vec![
        // (regexp, input, expected result)
        ("a", "a", true),
        ("a", "b", false),
        ("aa", "aa", true),
        ("aa", "a", false),
        // Optional tests
        ("a?b", "ab", true),
        ("a?b", "b", true),
        // Repeated tests
        ("a+b", "aab", true),
        ("a+b", "b", false),
        // OptionalRepeated tests
        ("a*b", "aab", true),
        ("a*b", "b", true),
        // Multi-operator tests
        ("a+b*c", "aac", true),
        ("a+b*c", "aabbc", true),
        ("a+b*c", "aabb", false),
        ("(ab)+cd", "ababcd", true),
        ("colou?r", "color", true),
        ("colou?r", "colour", true),
    ];

    println!("");

    for (_, test_case) in test_cases.iter().enumerate() {
        let regexp = regexp_from_string(test_case.0).unwrap();
        let input = test_case.1;
        let expected_result = test_case.2;

        let insts = compile_regexp(&regexp);

        let result = thompson_vm(&insts, input);
        if result != expected_result {
            let error_message = format!(
                "\t=== Regexp:\t\t\"{}\" > {:?}\n\
                 \t=== Compiled:\t\t{:?}\n\
                 \t=== Input:\t\t{}\n\
                 \t=== Expected Result:\t{}\n\
                 \t=== Actual Result:\t{}\n",
                test_case.0, regexp, insts, input, expected_result, result
            );
            panic!("Unexpected Regexp match result:\n{}", error_message);
        }
    }
}

#[test]
fn matching_test() {
    let regexp = regexp_from_string("a?b+").unwrap();
    assert!(is_match(&regexp, "ab"));
    assert!(is_match(&regexp, "bbb"));
    assert!(!is_match(&regexp, "a"));
}

#[test]
fn instruction_generation() {
    let con_insts = compile_regexp(&regexp_from_string("abc").unwrap());
    let alt_insts = compile_regexp(&regexp_from_string("a|b|c").unwrap());
    let opt_insts = compile_regexp(&regexp_from_string("a?(bc)?").unwrap());
    let rep_insts = compile_regexp(&regexp_from_string("a+(bc)+").unwrap());
    let oprep_insts = compile_regexp(&regexp_from_string("a*(bc)*").unwrap());

    assert_eq!(con_insts, vec![Char('a'), Char('b'), Char('c'), Match]);
    assert_eq!(
        alt_insts,
        vec![Char('a'), Jump(5), Char('b'), Jump(5), Char('c'), Match]
    );
    assert_eq!(
        opt_insts,
        vec![Split(1, 2), Char('a'), Split(3, 5), Char('b'), Char('c'), Match]
    );
    assert_eq!(
        rep_insts,
        vec![Char('a'), Split(0, 2), Char('b'), Char('c'), Split(2, 5), Match]
    );
    assert_eq!(
        oprep_insts,
        vec![
            Split(1, 3),
            Char('a'),
            Jump(0),
            Split(4, 7),
            Char('b'),
            Char('c'),
            Jump(3),
            Match
        ]
    );
}

#[test]
fn test_whole_string_anchoring() {
    let aa = regexp_from_string("aa").unwrap();
    assert!(!is_match(&aa, "a"));
    let a = regexp_from_string("a").unwrap();
    assert!(!is_match(&a, "aa"));
    assert!(is_match(&a, "a"));
}

#[test]
fn test_quantifier_semantics() {
    let cases = vec![
        ("a?b", "ab", true),
        ("a?b", "b", true),
        ("a+b", "aab", true),
        ("a+b", "b", false),
        ("a*b", "b", true),
        ("a+b*c", "aabb", false),
    ];
    for (pattern, input, expected) in cases {
        let tree = regexp_from_string(pattern).unwrap();
        assert_eq!(is_match(&tree, input), expected);
    }
}

#[test]
fn test_alternation_priority_grouping() {
    let cases = vec![
        ("(ab)+cd", "ababcd", true),
        ("colou?r", "color", true),
        ("colou?r", "colour", true),
        // branch order is priority order: the compiled program enters the
        // first alternative of a bare alternation
        ("a|b", "a", true),
        ("a|b", "c", false),
    ];
    for (pattern, input, expected) in cases {
        let tree = regexp_from_string(pattern).unwrap();
        assert_eq!(is_match(&tree, input), expected);
    }
}

#[test]
fn test_match_repeatability() {
    let tree = regexp_from_string("(ab)+cd").unwrap();
    let insts = compile_regexp(&tree);
    let first = thompson_vm(&insts, "ababcd");
    let second = thompson_vm(&insts, "ababcd");
    assert_eq!(first, second);
    assert!(first);
    let tree_again = regexp_from_string("(ab)+cd").unwrap();
    assert_eq!(is_match(&tree_again, "ababcd"), first);
}

#[test]
fn test_bounded_work_nested_repetition() {
    let star_star = regexp_from_string("(a*)*").unwrap();
    let long_a = "a".repeat(60);
    assert!(is_match(&star_star, &long_a));
    assert!(is_match(&star_star, ""));

    let plus_plus = regexp_from_string("(a+)+b").unwrap();
    let no_b = "a".repeat(60);
    assert!(!is_match(&plus_plus, &no_b));
    let with_b = format!("{}b", "a".repeat(60));
    assert!(is_match(&plus_plus, &with_b));
}

#[test]
fn test_escaped_metacharacter_matching() {
    let tree = regexp_from_string("a\\+b").unwrap();
    assert!(is_match(&tree, "a+b"));
    assert!(!is_match(&tree, "ab"));
    assert!(!is_match(&tree, "aab"));
}

#[test]
fn test_out_of_range_targets_kill_threads() {
    let program = vec![Inst::Jump(100), Inst::Match];
    assert!(!thompson_vm(&program, "a"));
    let empty_program: Vec<Inst> = Vec::new();
    assert!(!thompson_vm(&empty_program, ""));
}
