use dagq::planner::{Expr, Planner, Predicate, RewriteRules, Vx};

#[test]
fn test_rewrites_ancestry() {
    let planner = Planner::default();
    let expr = Expr::constant(vec![Vx(0)])
        .up(0, None)
        .intersection(Expr::constant(vec![Vx(1)]).down(0, None))
        .optimize(&planner);

    assert_eq!(
        expr.tree().to_string(),
        "range(\n  constant([Vx(0)]),\n  constant([Vx(1)]),\n)\n"
    );
}

#[test]
fn test_rewrites_filter() {
    let planner = Planner::default();
    let expr = Expr::constant(vec![Vx(0)])
        .intersection(Expr::All.filter(vec![Predicate::Author("Justin".into())]))
        .optimize(&planner);

    assert_eq!(
        expr.tree().to_string(),
        "constant([Vx(0)])\n  .filter([Author(\"Justin\")])\n"
    );

    let expr = Expr::constant(vec![Vx(0)])
        .intersection(Expr::All.filter(vec![Predicate::Author("Justin".into())]))
        .intersection(Expr::All.filter(vec![Predicate::Description("Some description".into())]))
        .optimize(&planner);

    assert_eq!(
        expr.tree().to_string(),
        "constant([Vx(0)])\n  .filter([Author(\"Justin\"), Description(\"Some description\")])\n"
    );

    let expr = Expr::constant(vec![Vx(0)])
        .intersection(Expr::constant(vec![Vx(1)]).up(0, None))
        .intersection(Expr::All.filter(vec![Predicate::Description("Some description".into())]))
        .optimize(&planner);

    assert_eq!(
        expr.tree().to_string(),
        "intersection(\n  constant([Vx(0)]),\n  constant([Vx(1)])\n    .up(0, *),\n)\n  .filter([Description(\"Some description\")])\n"
    );

    let expr = Expr::constant(vec![Vx(0)])
        .filter(vec![Predicate::Author("Justin".into())])
        .union(Expr::constant(vec![Vx(1)]).filter(vec![Predicate::Author("Justin".into())]))
        .optimize(&planner);

    assert_eq!(
        expr.tree().to_string(),
        "constant([Vx(0), Vx(1)])\n  .filter([Author(\"Justin\")])\n"
    );
}

#[test]
fn test_rewrites() {
    let planner = Planner::default();
    let expr = Expr::constant(vec![Vx(0)])
        .up(0, None)
        .up(0, None)
        .optimize(&planner);

    assert_eq!(expr.tree().to_string(), "constant([Vx(0)])\n  .up(0, *)\n");

    let expr = Expr::constant(vec![Vx(0)])
        .up(1, Some(1))
        .up(0, Some(1))
        .optimize(&planner);

    assert_eq!(expr.tree().to_string(), "constant([Vx(0)])\n  .up(1, 2)\n");

    let expr = Expr::All;

    assert_eq!(expr.tree().to_string(), "all()\n");

    let planner = Planner {
        rules: RewriteRules {
            fold_up_up: false,
            ..RewriteRules::all()
        },
    };
    let expr = Expr::constant(vec![Vx(0)])
        .up(0, None)
        .up(0, None)
        .optimize(&planner);

    assert_eq!(
        expr.tree().to_string(),
        "constant([Vx(0)])\n  .up(0, *)\n  .up(0, *)\n"
    );

    let planner = Planner::default();
    let expr = Expr::constant(vec![Vx(0)])
        .union(Expr::constant(vec![Vx(1)]))
        .optimize(&planner);

    assert_eq!(expr.tree().to_string(), "constant([Vx(0), Vx(1)])\n");

    let planner = Planner::default();
    let expr = Expr::constant(vec![Vx(1)])
        .union(Expr::constant(vec![Vx(0)]))
        .optimize(&planner);

    assert_eq!(expr.tree().to_string(), "constant([Vx(0), Vx(1)])\n");

    let planner = Planner::default();
    let expr = Expr::constant(vec![])
        .union(Expr::constant(vec![]))
        .optimize(&planner);

    assert_eq!(expr.tree().to_string(), "none()\n");

    let expr = Expr::constant(vec![Vx(0)])
        .intersection(Expr::constant(vec![Vx(1)]))
        .optimize(&planner);
    assert_eq!(expr.tree().to_string(), "none()\n");

    let expr = Expr::constant(vec![Vx(0)])
        .intersection(Expr::constant(vec![Vx(0)]))
        .optimize(&planner);
    assert_eq!(expr.tree().to_string(), "constant([Vx(0)])\n");

    let expr = Expr::constant(vec![Vx(0)])
        .intersection(Expr::All)
        .optimize(&planner);
    assert_eq!(expr.tree().to_string(), "constant([Vx(0)])\n");

    let expr = Expr::constant(vec![Vx(1)])
        .intersection(Expr::constant(vec![Vx(0)]))
        .optimize(&planner);
    assert_eq!(expr.tree().to_string(), "none()\n");

    let planner = Planner::default();
    let expr = Expr::constant(vec![])
        .intersection(Expr::constant(vec![]))
        .optimize(&planner);

    assert_eq!(expr.tree().to_string(), "none()\n");
}

#[test]
fn nested_walks_fold_into_one_window() {
    let planner = Planner::default();
    let expr = Expr::constant(vec![Vx(3)])
        .down(2, Some(5))
        .down(1, None)
        .optimize(&planner);

    assert_eq!(expr.tree().to_string(), "constant([Vx(3)])\n  .down(3, *)\n");

    let expr = Expr::constant(vec![Vx(3)])
        .up(2, Some(5))
        .up(1, Some(4))
        .optimize(&planner);

    assert_eq!(expr.tree().to_string(), "constant([Vx(3)])\n  .up(3, 9)\n");
}

#[test]
fn range_merge_keeps_bounded_walks() {
    let planner = Planner::default();
    let expr = Expr::constant(vec![Vx(0)])
        .up(0, None)
        .intersection(Expr::constant(vec![Vx(1)]).down(0, None))
        .intersection(Expr::constant(vec![Vx(2)]).up(1, Some(2)))
        .optimize(&planner);

    assert_eq!(
        expr.tree().to_string(),
        "intersection(\n  constant([Vx(2)])\n    .up(1, 2),\n  range(\n    constant([Vx(0)]),\n    constant([Vx(1)]),\n  ),\n)\n"
    );
}
