use dagq::lang::{parse, ParseError, RevsetExpr};
use dagq::physical::Rev;
use dagq::render::{run, Indexes};

#[test]
fn renders_revset_ast_to_physical_plan_and_results() {
    // Graph:
    //
    //      0
    //     / \
    //    1   2
    //     \ /
    //      3
    //     / \
    //    4   5
    //         \
    //          6
    let indexes = Indexes::new(
        (0..=6).map(|i| (i.to_string(), Rev(i))).collect(),
        vec![
            (Rev(1), Rev(0)),
            (Rev(2), Rev(0)),
            (Rev(3), Rev(1)),
            (Rev(3), Rev(2)),
            (Rev(4), Rev(3)),
            (Rev(5), Rev(3)),
            (Rev(6), Rev(5)),
        ],
    );

    let cases = [
        ("1 | 2", vec![Rev(2), Rev(1)]),
        ("::6", vec![Rev(5), Rev(3), Rev(2), Rev(1), Rev(0)]),
        ("0::", vec![Rev(6), Rev(5), Rev(4), Rev(3), Rev(2), Rev(1)]),
        ("3::6", vec![Rev(6), Rev(5), Rev(3)]),
        ("(1 | 4) | (2 | 4)", vec![Rev(4), Rev(2), Rev(1)]),
        ("0:: & (2 | 4 | 6)", vec![Rev(6), Rev(4), Rev(2)]),
        ("0:: ~ (2 | 5)", vec![Rev(6), Rev(4), Rev(3), Rev(1)]),
    ];

    for (query, expected) in cases {
        let ast = parse(query).unwrap();
        assert_eq!(run(&ast, &indexes), expected, "query: {query}");
    }
}

fn round_trip(text: &str, printed: &str) {
    let ast = parse(text).unwrap();
    assert_eq!(ast.to_text(), printed);
    let again = parse(&ast.to_text()).unwrap();
    assert_eq!(again.to_text(), printed);
}

#[test]
fn parses_literals_and_set_operators() {
    round_trip("a", "a");
    round_trip("  main  ", "main");
    round_trip("a | b", "a | b");
    round_trip("a|b|c", "(a | b) | c");
    round_trip("a & b ~ c", "(a & b) ~ c");
    round_trip("a | b & c", "a | (b & c)");
    round_trip("(a | b) & c", "(a | b) & c");
}

#[test]
fn parses_ancestry_operators() {
    round_trip("::a", "::a");
    round_trip("a::", "a::");
    round_trip("a::b", "a::b");
    round_trip("a:: | ::b", "(a::) | (::b)");
    round_trip("(a::)::", "(a::)::");
    round_trip("::(a | b)", "::(a | b)");
}

#[test]
fn parses_function_calls() {
    round_trip("heads(a::)", "heads(a::)");
    round_trip("f()", "f()");
    round_trip("f(a, b | c)", "f(a, b | c)");
    round_trip("root() | heads(x::y)", "root() | heads(x::y)");
}

#[test]
fn parse_builds_the_expected_tree() {
    let ast = parse("0:: & (2 | 4)").unwrap();
    match ast {
        RevsetExpr::Intersection(left, right) => {
            assert!(matches!(*left, RevsetExpr::Descendants(_)));
            assert!(matches!(*right, RevsetExpr::Union(_, _)));
        }
        other => panic!("unexpected tree {:?}", other),
    }
}

#[test]
fn parse_reports_error_positions() {
    assert_eq!(parse("").unwrap_err(), ParseError { pos: 0 });
    assert_eq!(parse("a |").unwrap_err(), ParseError { pos: 3 });
    assert_eq!(parse("(a").unwrap_err(), ParseError { pos: 2 });
    assert_eq!(parse("a b").unwrap_err(), ParseError { pos: 2 });
    assert_eq!(parse("f(a,").unwrap_err(), ParseError { pos: 4 });
    assert_eq!(parse("a & & b").unwrap_err(), ParseError { pos: 4 });
}
