use dagq::{DagBuilder, Expr, Planner, RewriteRules, Vx};

#[test]
fn test_up_rewrites() {
    let expr = Expr::intersection_all(vec![
        Expr::union_all(vec![
            Expr::constant(vec![Vx(0)]).up(1, None),
            Expr::constant(vec![Vx(3), Vx(4)]).down(1, Some(2)),
        ]),
        Expr::constant(vec![Vx(0)]).up(0, None).filter("name", "f"),
    ]);

    assert_eq!(
        expr.tree().to_string(),
        "intersection(\n  union(\n    constant([Vx(0)])\n      .up(1, *),\n    constant([Vx(3), Vx(4)])\n      .down(1, 2),\n  ),\n  constant([Vx(0)])\n    .up(0, *)\n    .filter(\"name\", \"f\"),\n)\n"
    );

    let planner = Planner::default();
    let expr = Expr::constant(vec![Vx(0)])
        .up(0, None)
        .up(0, None)
        .optimize(&planner);

    assert_eq!(expr.tree().to_string(), "constant([Vx(0)])\n  .up(0, *)\n");

    let expr = Expr::constant(vec![Vx(0)])
        .up(1, Some(1))
        .up(0, Some(1))
        .optimize(&planner);

    assert_eq!(expr.tree().to_string(), "constant([Vx(0)])\n  .up(1, 2)\n");

    let expr = Expr::All;

    assert_eq!(expr.tree().to_string(), "all()\n");

    let planner = Planner {
        rules: RewriteRules {
            fold_up_up: false,
            ..RewriteRules::all()
        },
    };
    let expr = Expr::constant(vec![Vx(0)])
        .up(0, None)
        .up(0, None)
        .optimize(&planner);

    assert_eq!(
        expr.tree().to_string(),
        "constant([Vx(0)])\n  .up(0, *)\n  .up(0, *)\n"
    );
}

#[test]
fn range_between_two_revsets() {
    let mut builder = DagBuilder::default();

    // z -> a -> b -> c
    let z = builder.root();
    let a = builder.m([z]);
    let b = builder.m([a]);
    let c = builder.m([b]);
    let dag = builder.build();

    let query = Expr::range(Expr::constant(vec![a]), Expr::constant(vec![c]));

    let mut evaluator = dag.evaluator();
    assert_eq!(evaluator.eval(query).data(), vec![a, b, c]);
}

#[test]
fn it_works() {
    let mut builder = DagBuilder::default();

    // DAG used by these tests:
    //
    //          z
    //        /   \
    //       a     b
    //        \   /
    //          c
    //        /   \
    //       d     e
    //        \     \
    //         \     f
    //          \   /
    //            g
    let z = builder.root();
    let a = builder.m([z]);
    let b = builder.m([z]);
    let c = builder.m([a, b]);
    let d = builder.m([c]);
    let e = builder.m([c]);
    let f = builder.m([e]);
    let g = builder.m([d, f]);

    builder.annotate(c, "author", "Justin Jaffray");
    builder.annotate(d, "author", "Justin Jaffray");

    builder.annotate(z, "name", "z");
    builder.annotate(a, "name", "a");
    builder.annotate(b, "name", "b");
    builder.annotate(c, "name", "c");
    builder.annotate(d, "name", "d");
    builder.annotate(e, "name", "e");
    builder.annotate(f, "name", "f");
    builder.annotate(g, "name", "g");

    let dag = builder.build();

    let query = Expr::Constant(vec![c])
        .up(0, None)
        .intersection(Expr::All.filter("author", "Justin Jaffray"));

    let planner = Planner::default();

    let mut evaluator = dag.evaluator();

    println!("{}", query.tree().to_string());
    let query = query.optimize(&planner);
    println!("{}", query.tree().to_string());

    println!("{:?}", evaluator.eval(query));

    let cases = [
        (Expr::constant(vec![dag.root()]).up(1, Some(1)), vec![a, b]),
        (Expr::constant(vec![z]).up(2, Some(2)), vec![c]),
        (Expr::constant(vec![d, f]).up(1, Some(1)), vec![g]),
        (
            Expr::constant(vec![z]).up(1, None),
            vec![a, b, c, d, e, f, g],
        ),
        (Expr::constant(vec![g]).down(1, Some(1)), vec![d, f]),
        (
            Expr::constant(vec![g]).down(1, None),
            vec![z, a, b, c, d, e, f],
        ),
        (
            Expr::union_all(vec![
                Expr::constant(vec![z]).up(1, Some(1)),
                Expr::constant(vec![c]).up(1, Some(1)),
                Expr::constant(vec![f]),
            ]),
            vec![a, b, d, e, f],
        ),
        (
            Expr::intersection_all(vec![
                Expr::constant(vec![c]).up(1, None),
                Expr::constant(vec![g]).down(1, None),
                Expr::constant(vec![a, d, e, f]),
            ]),
            vec![d, e, f],
        ),
        (
            Expr::constant(vec![z]).up(1, None).filter("name", "f"),
            vec![f],
        ),
        (
            Expr::constant(vec![z])
                .up(1, None)
                .filter("name", "missing"),
            vec![],
        ),
    ];

    let mut evaluator = dag.evaluator();

    for (query, expected) in cases {
        assert_eq!(evaluator.eval(query).data(), expected);
    }
}

#[test]
fn one_step_finds_exactly_the_recorded_edges() {
    let mut builder = DagBuilder::default();
    let z = builder.root();
    let a = builder.vx();
    let b = builder.m([z, a]);
    builder.edge(a, z);
    assert_ne!(a, z);
    assert_ne!(b, z);
    let dag = builder.build();
    let mut evaluator = dag.evaluator();

    assert_eq!(evaluator.eval(Expr::constant(vec![z]).up(1, Some(1))).data(), vec![b]);
    assert_eq!(evaluator.eval(Expr::constant(vec![a]).up(1, Some(1))).data(), vec![z, b]);
    assert_eq!(evaluator.eval(Expr::constant(vec![b]).down(1, Some(1))).data(), vec![z, a]);
    assert_eq!(evaluator.eval(Expr::constant(vec![z]).down(1, Some(1))).data(), vec![a]);
}

#[test]
fn filter_keeps_exactly_the_recorded_annotations() {
    let mut builder = DagBuilder::default();
    let z = builder.root();
    let a = builder.m([z]);
    let b = builder.m([a]);
    builder.annotate(a, "author", "x");
    builder.annotate(b, "author", "y");
    let dag = builder.build();
    let mut evaluator = dag.evaluator();

    let all = || Expr::constant(vec![z, a, b]);
    assert_eq!(evaluator.eval(all().filter("author", "x")).data(), vec![a]);
    assert_eq!(evaluator.eval(all().filter("author", "z")).data(), Vec::<Vx>::new());
    assert_eq!(evaluator.eval(all().filter("name", "x")).data(), Vec::<Vx>::new());
}

#[test]
fn parents_of_a_merge_are_its_inputs_sorted_once() {
    let mut builder = DagBuilder::default();
    let z = builder.root();
    let a = builder.vx();
    let b = builder.vx();
    let c = builder.m([b, z, b, a]);
    let dag = builder.build();
    let mut evaluator = dag.evaluator();

    assert_eq!(c, Vx(3));
    assert_eq!(evaluator.eval(Expr::constant(vec![c]).down(1, Some(1))).data(), vec![z, a, b]);
}

#[test]
fn all_gives_every_vertex_once_in_order() {
    let mut builder = DagBuilder::default();
    let z = builder.root();
    let a = builder.m([z]);
    let b = builder.m([z]);
    let c = builder.m([a, b]);
    let dag = builder.build();

    let all = dag.all();
    assert_eq!(all.len(), 4);
    assert_eq!(all.data(), vec![z, a, b, c]);
}

#[test]
fn recorded_edge_and_annotation_survive_later_calls() {
    let mut builder = DagBuilder::default();
    let z = builder.root();
    let a = builder.vx();
    builder.edge(z, a);
    builder.annotate(a, "name", "a");
    let b = builder.m([a]);
    builder.annotate(b, "name", "b");
    builder.edge(a, b);
    let dag = builder.build();
    let mut evaluator = dag.evaluator();

    assert_eq!(evaluator.eval(Expr::constant(vec![z]).up(1, Some(1))).data(), vec![a]);
    assert_eq!(evaluator.eval(Expr::constant(vec![a]).down(1, Some(1))).data(), vec![z]);
    assert_eq!(
        evaluator.eval(Expr::constant(vec![z, a, b]).filter("name", "a")).data(),
        vec![a]
    );
    assert_eq!(evaluator.eval(Expr::intersection_all(vec![])).data(), Vec::<Vx>::new());
}
