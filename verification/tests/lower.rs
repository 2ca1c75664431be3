use dagq::planner::lower::{
    parse_usize, CommitRefTree, ExprKind, FilterKind, FilterTree, StringTree,
};
use dagq::planner::{lower_jj_revset, Expr, LowerRevsetError, Planner, RevsetTree};

fn sym(s: &str) -> RevsetTree {
    RevsetTree::CommitRef(CommitRefTree::Symbol(s.to_string()))
}

fn descendants(t: RevsetTree) -> RevsetTree {
    RevsetTree::Descendants { roots: Box::new(t), generation: 0..u64::MAX }
}

fn ancestors(t: RevsetTree) -> RevsetTree {
    RevsetTree::Ancestors { heads: Box::new(t), generation: 0..u64::MAX }
}

fn inter(a: RevsetTree, b: RevsetTree) -> RevsetTree {
    RevsetTree::Intersection(Box::new(a), Box::new(b))
}

fn union(a: RevsetTree, b: RevsetTree) -> RevsetTree {
    RevsetTree::Union(Box::new(a), Box::new(b))
}

/// What `author("..")` parses to: a filter on the name or the email.
fn author(s: &str) -> RevsetTree {
    union(
        RevsetTree::Filter(FilterTree::AuthorName(StringTree::Substring(s.to_string()))),
        RevsetTree::Filter(FilterTree::AuthorEmail(StringTree::Substring(s.to_string()))),
    )
}

fn description(s: &str) -> RevsetTree {
    RevsetTree::Filter(FilterTree::Description(StringTree::Substring(s.to_string())))
}

fn optimized_tree(t: &RevsetTree) -> String {
    let expr: Expr = lower_jj_revset(t).unwrap();
    expr.optimize(&Planner::default()).tree().to_string()
}

#[test]
fn lowers_ancestry_into_a_range() {
    // 0:: & ::1
    let t = inter(descendants(sym("0")), ancestors(sym("1")));
    assert_eq!(optimized_tree(&t), "range(\n  constant([Vx(0)]),\n  constant([Vx(1)]),\n)\n");
}

#[test]
fn lowers_author_and_description_filters() {
    // 0 & author("Justin")
    let t = inter(sym("0"), author("Justin"));
    assert_eq!(optimized_tree(&t), "constant([Vx(0)])\n  .filter([Author(\"Justin\")])\n");

    // 0 & author("Justin") & description("Some-description")
    let t = inter(inter(sym("0"), author("Justin")), description("Some-description"));
    assert_eq!(
        optimized_tree(&t),
        "constant([Vx(0)])\n  .filter([Author(\"Justin\"), Description(\"Some-description\")])\n"
    );

    // (0 & author("Justin")) | (1 & author("Justin"))
    let t = union(inter(sym("0"), author("Justin")), inter(sym("1"), author("Justin")));
    assert_eq!(optimized_tree(&t), "constant([Vx(0), Vx(1)])\n  .filter([Author(\"Justin\")])\n");
}

#[test]
fn lowers_constant_sets() {
    assert_eq!(optimized_tree(&union(sym("0"), sym("1"))), "constant([Vx(0), Vx(1)])\n");
    assert_eq!(optimized_tree(&union(sym("1"), sym("0"))), "constant([Vx(0), Vx(1)])\n");
    assert_eq!(optimized_tree(&inter(sym("0"), sym("1"))), "none()\n");
    assert_eq!(optimized_tree(&inter(sym("0"), sym("0"))), "constant([Vx(0)])\n");
    assert_eq!(optimized_tree(&inter(sym("1"), sym("0"))), "none()\n");
}

#[test]
fn lowers_nested_descendants_into_one_walk() {
    // (0::)::
    let t = descendants(descendants(sym("0")));
    assert_eq!(optimized_tree(&t), "constant([Vx(0)])\n  .up(0, *)\n");
}

#[test]
fn lowers_generation_bounds() {
    // ancestors(0, 3): rounds 0..3, the last round is 2
    let t = RevsetTree::Ancestors { heads: Box::new(sym("0")), generation: 1..3 };
    let expr = lower_jj_revset(&t).unwrap();
    assert_eq!(expr.tree().to_string(), "constant([Vx(0)])\n  .down(1, 2)\n");
}

#[test]
fn lowers_commit_ids_in_order() {
    let t = RevsetTree::Commits(vec!["7".to_string(), "3".to_string()]);
    let expr = lower_jj_revset(&t).unwrap();
    assert_eq!(expr.tree().to_string(), "constant([Vx(7), Vx(3)])\n");
}

#[test]
fn lowering_errors() {
    assert_eq!(
        lower_jj_revset(&sym("main")).unwrap_err(),
        LowerRevsetError::InvalidLiteral("main".to_string())
    );
    assert_eq!(
        lower_jj_revset(&RevsetTree::Commits(vec!["1".to_string(), "ab".to_string(), "cd".to_string()]))
            .unwrap_err(),
        LowerRevsetError::InvalidLiteral("ab".to_string())
    );
    assert_eq!(
        lower_jj_revset(&RevsetTree::Difference(Box::new(sym("0")), Box::new(sym("1")))).unwrap_err(),
        LowerRevsetError::UnsupportedExpression("difference")
    );
    assert_eq!(
        lower_jj_revset(&RevsetTree::Other(ExprKind::Heads)).unwrap_err(),
        LowerRevsetError::UnsupportedExpression("heads")
    );
    assert_eq!(
        lower_jj_revset(&RevsetTree::CommitRef(CommitRefTree::Other("Root".to_string()))).unwrap_err(),
        LowerRevsetError::UnsupportedCommitRef("Root".to_string())
    );
    assert_eq!(
        lower_jj_revset(&RevsetTree::Filter(FilterTree::Other(FilterKind::Subject))).unwrap_err(),
        LowerRevsetError::UnsupportedFilter("subject")
    );
    assert_eq!(
        lower_jj_revset(&RevsetTree::Filter(FilterTree::Description(StringTree::OtherPattern(
            "Glob(\"a*\")".to_string()
        ))))
        .unwrap_err(),
        LowerRevsetError::UnsupportedStringPattern("Glob(\"a*\")".to_string())
    );
    assert_eq!(
        lower_jj_revset(&RevsetTree::Descendants { roots: Box::new(sym("0")), generation: 0..0 })
            .unwrap_err(),
        LowerRevsetError::GenerationOutOfRange(0..0)
    );
    // the left operand's error comes first
    assert_eq!(
        lower_jj_revset(&union(sym("x"), sym("y"))).unwrap_err(),
        LowerRevsetError::InvalidLiteral("x".to_string())
    );
}

#[test]
fn lowers_empty_and_all() {
    assert_eq!(lower_jj_revset(&RevsetTree::Empty).unwrap().tree().to_string(), "none()\n");
    assert_eq!(lower_jj_revset(&RevsetTree::All).unwrap().tree().to_string(), "all()\n");
}

#[test]
fn reads_decimal_numbers() {
    assert_eq!(parse_usize("0"), Some(0));
    assert_eq!(parse_usize("007"), Some(7));
    assert_eq!(parse_usize("+5"), Some(5));
    assert_eq!(parse_usize(""), None);
    assert_eq!(parse_usize("+"), None);
    assert_eq!(parse_usize("-1"), None);
    assert_eq!(parse_usize("1a"), None);
    assert_eq!(parse_usize(&usize::MAX.to_string()), Some(usize::MAX));
    assert_eq!(parse_usize("99999999999999999999999"), None);
}
