use atomstep::atom::{Atom, GroundedAtom};
use atomstep::bindings::{apply_bindings_to_atom, apply_bindings_to_bindings, Bindings};
use atomstep::interpreter::{interpret, interpret_init, interpret_step, plan_step};
use atomstep::plan::{Plan, StepResult};
use atomstep::space::GroundingSpace;

fn sym(s: &str) -> Atom {
    Atom::sym(s)
}

fn var(s: &str) -> Atom {
    Atom::var(s)
}

fn expr(children: &[Atom]) -> Atom {
    Atom::expr(children)
}

#[test]
fn test_match_all() {
    let mut space = GroundingSpace::new();
    space.add(expr(&[sym("="), expr(&[sym("color")]), sym("blue")]));
    space.add(expr(&[sym("="), expr(&[sym("color")]), sym("red")]));
    space.add(expr(&[sym("="), expr(&[sym("color")]), sym("green")]));
    let e = expr(&[sym("color")]);

    assert_eq!(
        interpret(space, &e),
        Ok(vec![sym("blue"), sym("red"), sym("green")])
    );
}

#[test]
fn test_frog_reasoning() {
    let mut space = GroundingSpace::new();
    space.add(expr(&[
        sym("="),
        expr(&[sym("and"), sym("True"), sym("True")]),
        sym("True"),
    ]));
    space.add(expr(&[
        sym("="),
        expr(&[sym("if"), sym("True"), var("then"), var("else")]),
        var("then"),
    ]));
    space.add(expr(&[
        sym("="),
        expr(&[sym("if"), sym("False"), var("then"), var("else")]),
        var("else"),
    ]));
    space.add(expr(&[
        sym("="),
        expr(&[sym("Fritz"), sym("croaks")]),
        sym("True"),
    ]));
    space.add(expr(&[
        sym("="),
        expr(&[sym("Fritz"), sym("eats-flies")]),
        sym("True"),
    ]));
    space.add(expr(&[
        sym("="),
        expr(&[sym("Tweety"), sym("chirps")]),
        sym("True"),
    ]));
    space.add(expr(&[
        sym("="),
        expr(&[sym("Tweety"), sym("yellow")]),
        sym("True"),
    ]));
    space.add(expr(&[
        sym("="),
        expr(&[sym("Tweety"), sym("eats-flies")]),
        sym("True"),
    ]));
    let e = expr(&[
        sym("if"),
        expr(&[
            sym("and"),
            expr(&[var("x"), sym("croaks")]),
            expr(&[var("x"), sym("eats-flies")]),
        ]),
        expr(&[sym("="), expr(&[var("x"), sym("frog")]), sym("True")]),
        sym("nop"),
    ]);

    assert_eq!(
        interpret(space, &e),
        Ok(vec![expr(&[
            sym("="),
            expr(&[sym("Fritz"), sym("frog")]),
            sym("True")
        ])])
    );
}

#[test]
fn test_variable_keeps_value_in_different_sub_expressions() {
    let mut space = GroundingSpace::new();
    space.add(expr(&[
        sym("="),
        expr(&[sym("eq"), var("x"), var("x")]),
        sym("True"),
    ]));
    space.add(expr(&[
        sym("="),
        expr(&[sym("plus"), sym("Z"), var("y")]),
        var("y"),
    ]));
    space.add(expr(&[
        sym("="),
        expr(&[sym("plus"), expr(&[sym("S"), var("k")]), var("y")]),
        expr(&[sym("S"), expr(&[sym("plus"), var("k"), var("y")])]),
    ]));
    let space = space;

    assert_eq!(
        interpret(
            space.clone(),
            &expr(&[
                sym("eq"),
                expr(&[sym("plus"), sym("Z"), var("n")]),
                var("n")
            ])
        ),
        Ok(vec![sym("True")])
    );
    assert_eq!(
        interpret(
            space.clone(),
            &expr(&[
                sym("eq"),
                expr(&[sym("plus"), expr(&[sym("S"), sym("Z")]), var("n")]),
                var("n")
            ])
        ),
        Ok(vec![expr(&[
            sym("eq"),
            expr(&[sym("S"), var("y")]),
            var("y")
        ])])
    );
}

#[test]
fn test_non_expression_atom_interprets_to_itself() {
    let mut space = GroundingSpace::new();
    space.add(expr(&[sym("="), expr(&[sym("color")]), sym("blue")]));
    assert_eq!(interpret(space, &sym("color")), Ok(vec![sym("color")]));

    let space2 = GroundingSpace::new();
    assert_eq!(interpret(space2, &var("q")), Ok(vec![var("q")]));
}

#[test]
fn test_unmatched_expression_interprets_to_itself() {
    let space = GroundingSpace::new();
    let e = expr(&[sym("foo"), sym("bar")]);
    assert_eq!(interpret(space, &e), Ok(vec![e]));
}

#[test]
fn test_grounded_execution() {
    let space = GroundingSpace::new();
    let e = expr(&[
        Atom::gnd(GroundedAtom::PlusOp),
        Atom::gnd(GroundedAtom::Int(1)),
        Atom::gnd(GroundedAtom::Int(2)),
    ]);
    assert_eq!(
        interpret(space, &e),
        Ok(vec![Atom::gnd(GroundedAtom::Int(3))])
    );
}

#[test]
fn test_grounded_execution_overflow_error() {
    // The overflow error ends the execution branch; the top-level fallback
    // absorbs it and hands the expression back unchanged.
    let space = GroundingSpace::new();
    let e = expr(&[
        Atom::gnd(GroundedAtom::PlusOp),
        Atom::gnd(GroundedAtom::Int(i64::MAX)),
        Atom::gnd(GroundedAtom::Int(1)),
    ]);
    assert_eq!(interpret(space, &e), Ok(vec![e]));

    // Driving the execute rule directly shows the error itself.
    let e2 = expr(&[
        Atom::gnd(GroundedAtom::PlusOp),
        Atom::gnd(GroundedAtom::Int(i64::MAX)),
        Atom::gnd(GroundedAtom::Int(1)),
    ]);
    match plan_step(Plan::ExecuteGrounded(e2, Bindings::new())) {
        StepResult::Error(m) => assert_eq!(m, "integer addition overflows".to_string()),
        other => panic!("unexpected step: {:?}", other),
    }
}

#[test]
fn test_nop_special_case_keeps_expression() {
    // A grounded operation that succeeds with no results, embedded as an
    // argument, must make the surrounding expression fall back to itself
    // rather than silently disappear.
    let space = GroundingSpace::new();
    let e = expr(&[sym("foo"), expr(&[Atom::gnd(GroundedAtom::NopOp)])]);
    assert_eq!(interpret(space, &e), Ok(vec![e]));
}

#[test]
fn test_step_by_step_driving() {
    let mut space = GroundingSpace::new();
    space.add(expr(&[sym("="), expr(&[sym("color")]), sym("blue")]));
    let e = expr(&[sym("color")]);

    let mut step = interpret_init(space, &e);
    let mut steps_taken = 0u32;
    while step.has_next() {
        assert!(step.has_next());
        step = interpret_step(step);
        steps_taken += 1;
        assert!(steps_taken < 1000);
    }
    match step.get_result() {
        Ok(Ok(pairs)) => {
            let atoms: Vec<Atom> = pairs.into_iter().map(|(a, _)| a).collect();
            assert_eq!(atoms, vec![sym("blue")]);
        }
        other => panic!("unexpected result: {:?}", other),
    }
}

#[test]
fn test_match_is_not_found_surfaces_as_default() {
    // An expression with a non-matching knowledge base returns itself: the
    // match-not-found error is absorbed by the fallback.
    let mut space = GroundingSpace::new();
    space.add(expr(&[sym("="), expr(&[sym("other")]), sym("value")]));
    let e = expr(&[sym("color")]);
    assert_eq!(interpret(space, &e), Ok(vec![e]));
}

#[test]
fn test_query_returns_bindings_in_store_order() {
    let mut space = GroundingSpace::new();
    space.add(expr(&[sym("="), expr(&[sym("color")]), sym("blue")]));
    space.add(expr(&[sym("="), expr(&[sym("color")]), sym("red")]));
    let probe = expr(&[sym("="), expr(&[sym("color")]), var("X")]);
    let result = space.query(&probe);
    assert_eq!(result.len(), 2);
}

#[test]
fn test_grounded_not_executable_error() {
    // A bare grounded scalar at the head is executed, fails, and the
    // top-level fallback hands the expression back unchanged.
    let space = GroundingSpace::new();
    let e = expr(&[Atom::gnd(GroundedAtom::Int(7)), sym("x")]);
    assert_eq!(interpret(space, &e), Ok(vec![e]));

    // Driving the execute rule directly shows the error itself.
    let e2 = expr(&[Atom::gnd(GroundedAtom::Int(7)), sym("x")]);
    match plan_step(Plan::ExecuteGrounded(e2, Bindings::new())) {
        StepResult::Error(m) => assert_eq!(m, "grounded value is not executable".to_string()),
        other => panic!("unexpected step: {:?}", other),
    }
}

#[test]
fn test_apply_bindings_substitutes_and_is_idempotent() {
    let mut b = Bindings::new();
    b.insert(
        atomstep::atom::VariableAtom { name: "x".to_string() },
        sym("Fritz"),
    );
    let e = expr(&[sym("and"), var("x"), var("y")]);
    let applied = apply_bindings_to_atom(&e, &b);
    assert_eq!(applied, expr(&[sym("and"), sym("Fritz"), var("y")]));
    // applying again changes nothing: the bindings were already substituted
    assert_eq!(apply_bindings_to_atom(&applied, &b), applied);
}

#[test]
fn test_bindings_do_not_leak_into_unrelated_atoms() {
    let mut b = Bindings::new();
    b.insert(
        atomstep::atom::VariableAtom { name: "x".to_string() },
        sym("Fritz"),
    );
    let sibling = expr(&[var("z"), sym("croaks")]);
    assert_eq!(apply_bindings_to_atom(&sibling, &b), sibling);
}

#[test]
fn test_compose_bindings_conflict() {
    let mut b1 = Bindings::new();
    b1.insert(
        atomstep::atom::VariableAtom { name: "x".to_string() },
        sym("blue"),
    );
    let mut b2 = Bindings::new();
    b2.insert(
        atomstep::atom::VariableAtom { name: "x".to_string() },
        sym("red"),
    );
    assert!(apply_bindings_to_bindings(&b1, &b2).is_err());

    let mut b3 = Bindings::new();
    b3.insert(
        atomstep::atom::VariableAtom { name: "y".to_string() },
        sym("red"),
    );
    let merged = apply_bindings_to_bindings(&b1, &b3).unwrap();
    assert_eq!(merged.get(&"x".to_string()), Some(&sym("blue")));
    assert_eq!(merged.get(&"y".to_string()), Some(&sym("red")));
}

#[test]
fn test_query_variable_does_not_collide_with_probe() {
    // A query variable named like a short probe name must behave exactly
    // like any other variable: the probe variable is chosen fresh.
    let mut space = GroundingSpace::new();
    space.add(expr(&[
        sym("="),
        expr(&[sym("eq"), var("x"), var("x")]),
        sym("True"),
    ]));
    space.add(expr(&[
        sym("="),
        expr(&[sym("plus"), sym("Z"), var("y")]),
        var("y"),
    ]));
    assert_eq!(
        interpret(
            space,
            &expr(&[
                sym("eq"),
                expr(&[sym("plus"), sym("Z"), var("X")]),
                var("X")
            ])
        ),
        Ok(vec![sym("True")])
    );
}
