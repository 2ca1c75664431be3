use dagq::lang::{parse, RevsetExpr};
use dagq::physical::{Backwards, Constant, Difference, Forwards, Index, Intersection, Operator, OperatorExt, RangeExt, Rev, Union};
use dagq::{DagBuilder, Expr, Planner, RewriteRules, Vx};

fn lit(s: &str) -> RevsetExpr {
    RevsetExpr::Literal(s.to_string())
}

#[test]
fn printed_expressions_parse_back() {
    let e = RevsetExpr::Union(
        Box::new(RevsetExpr::Intersection(
            Box::new(RevsetExpr::Range(Box::new(lit("a")), Box::new(lit("b")))),
            Box::new(RevsetExpr::Descendants(Box::new(lit("x")))),
        )),
        Box::new(RevsetExpr::Function {
            name: "heads".to_string(),
            args: vec![RevsetExpr::Ancestors(Box::new(lit("main"))), lit("y")],
        }),
    );
    let text = e.to_text();
    assert_eq!(text, "((a::b) & (x::)) | heads(::main, y)");
    let back = parse(&text).unwrap();
    assert_eq!(back.to_text(), text);
    assert!(matches!(back, RevsetExpr::Union(..)));
}

#[test]
fn set_operators_compute_set_operations() {
    let l = || Constant::<Rev, Forwards>::new(vec![Rev(9), Rev(7), Rev(4), Rev(1)]);
    let r = || Constant::<Rev, Forwards>::new(vec![Rev(8), Rev(7), Rev(1), Rev(0)]);
    assert_eq!(
        Union::new(l(), r()).collect_all(),
        vec![Rev(9), Rev(8), Rev(7), Rev(4), Rev(1), Rev(0)]
    );
    assert_eq!(Intersection::new(l(), r()).collect_all(), vec![Rev(7), Rev(1)]);
    assert_eq!(Difference::new(l(), r()).collect_all(), vec![Rev(9), Rev(4)]);
}

#[test]
fn folded_walks_evaluate_alike() {
    let mut builder = DagBuilder::default();
    let z = builder.root();
    let a = builder.m([z]);
    let b = builder.m([a]);
    let c = builder.m([b]);
    let d = builder.m([c]);
    let dag = builder.build();

    let nested = Expr::constant(vec![z]).up(1, Some(1)).up(0, Some(2));
    let folded = Expr::constant(vec![z]).up(1, Some(3));
    let mut ev = dag.evaluator();
    let x = ev.eval(nested).data();
    let y = ev.eval(folded).data();
    assert_eq!(x, y);
    assert_eq!(x, vec![a, b, c]);

    let nested = Expr::constant(vec![d]).down(1, None).down(1, Some(1));
    let folded = Expr::constant(vec![d]).down(2, None);
    let x = ev.eval(nested).data();
    let y = ev.eval(folded).data();
    assert_eq!(x, y);
    assert_eq!(x, vec![z, a, b]);
}

#[test]
fn flattened_unions_evaluate_alike() {
    let mut builder = DagBuilder::default();
    let z = builder.root();
    let a = builder.m([z]);
    let b = builder.m([z]);
    let dag = builder.build();

    let nested = Expr::union_all(vec![
        Expr::union_all(vec![Expr::constant(vec![b]), Expr::constant(vec![z])]),
        Expr::constant(vec![a]),
    ]);
    let flat = Expr::union_all(vec![Expr::constant(vec![b]), Expr::constant(vec![z]), Expr::constant(vec![a])]);
    let mut ev = dag.evaluator();
    assert_eq!(ev.eval(nested).data(), vec![Vx(0), Vx(1), Vx(2)]);
    assert_eq!(ev.eval(flat).data(), vec![z, a, b]);
}

#[test]
fn closure_hands_out_exactly_the_reachable_items() {
    let start = Constant::<_, Forwards>::new(vec![Rev(5)]);
    let edges = Constant::<_, Forwards>::new(vec![
        (Rev(5), Rev(3)),
        (Rev(5), Rev(2)),
        (Rev(4), Rev(0)),
        (Rev(3), Rev(1)),
        (Rev(2), Rev(1)),
        (Rev(1), Rev(0)),
    ]);
    let mut closure = start.closure(edges);
    assert_eq!(closure.collect_all(), vec![Rev(5), Rev(3), Rev(2), Rev(1), Rev(0)]);
}

#[test]
fn dag_range_hands_out_what_lies_between() {
    // 0 <- 1 <- 3 <- 4, 0 <- 2 <- 3, 4 <- 5 (child <- parent reads child, parent)
    let child_parent = vec![
        (Rev(1), Rev(0)),
        (Rev(2), Rev(0)),
        (Rev(3), Rev(1)),
        (Rev(3), Rev(2)),
        (Rev(4), Rev(3)),
        (Rev(5), Rev(4)),
    ];
    let parent_child = child_parent.iter().map(|&(c, p)| (p, c)).collect::<Vec<_>>();
    let descendants = Index::<_, Backwards>::new(parent_child);
    let ancestors = Index::<_, Forwards>::new(child_parent);
    let x = Constant::<_, Forwards>::new(vec![Rev(1)]);
    let y = Constant::<_, Forwards>::new(vec![Rev(4), Rev(2)]);
    let mut range = x.range(y, &descendants, &ancestors);
    // 2 does not descend from 1, 5 does not lead to a head
    assert_eq!(range.collect_all(), vec![Rev(1), Rev(3), Rev(4)]);
}

#[test]
fn optimized_queries_evaluate_to_the_same_vertices() {
    let mut builder = DagBuilder::default();
    let z = builder.root();
    let a = builder.m([z]);
    let b = builder.m([z]);
    let c = builder.m([a, b]);
    builder.annotate(a, "name", "f");
    builder.annotate(c, "name", "f");
    let dag = builder.build();

    let query = || {
        Expr::intersection_all(vec![
            Expr::union_all(vec![
                Expr::union_all(vec![Expr::constant(vec![a]), Expr::constant(vec![b])]),
                Expr::constant(vec![z]).up(1, Some(1)).up(1, None),
            ]),
            Expr::All.filter("name", "f"),
            Expr::intersection_all(vec![Expr::constant(vec![c]).down(0, None), Expr::All]),
        ])
    };
    let mut sets = Vec::new();
    for rules in [RewriteRules::all(), RewriteRules::none()] {
        let planner = Planner { rules };
        let optimized = query().optimize(&planner);
        let mut ev = dag.evaluator();
        let mut got = ev.eval(optimized).data();
        got.sort();
        got.dedup();
        sets.push(got);
    }
    let mut ev = dag.evaluator();
    let mut plain = ev.eval(query()).data();
    plain.sort();
    plain.dedup();
    assert_eq!(plain, vec![a, c]);
    assert_eq!(sets[0], plain);
    assert_eq!(sets[1], plain);
}
