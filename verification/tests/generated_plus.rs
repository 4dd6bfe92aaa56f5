use sp_hints::anomalies::goal_from_state;
use sp_hints::model::{Action, Common, PlanningResult, Predicate, State, Transition, Value, ValueType, Variable};
use sp_hints::untriggered::step_2;

fn var(name: &str, vals: &[&str]) -> Variable {
    Variable {
        name: name.to_string(),
        value_type: ValueType::String,
        domain: vals.iter().map(|v| Value::String(v.to_string())).collect(),
    }
}

fn bool_var(name: &str) -> Variable {
    Variable { name: name.to_string(), value_type: ValueType::Bool, domain: vec![Value::Bool(true), Value::Bool(false)] }
}

fn eq(v: &Variable, val: Value) -> Predicate {
    Predicate::Eq(Common::Variable(v.deep_copy()), Common::Value(val))
}

fn s(x: &str) -> Value {
    Value::String(x.to_string())
}

fn assign(v: &Variable, val: Value) -> Action {
    Action { var: v.deep_copy(), common: Common::Value(val) }
}

fn trans(name: &str, guard: Predicate, actions: Vec<Action>) -> Transition {
    Transition { name: name.to_string(), guard, actions }
}

// The pick-and-place model of three boxes. The planner that would solve the
// scenario is not part of this library; the test runs the scenario's model
// through the library with the answer of a planner that found no plan.
#[test]
fn test_step_3_new_new_2_with_postprocess() {
    let pos = var("pos", &["a", "b", "c"]);
    let stat = var("stat", &["on", "off"]);
    let grip = var("grip", &["opened", "closed"]);
    let occ = bool_var("occ");
    let box1 = var("box_1", &["at_a", "at_b", "at_c", "at_grip"]);
    let box2 = var("box_2", &["at_a", "at_b", "at_c", "at_grip"]);
    let box3 = var("box_3", &["at_a", "at_b", "at_c", "at_grip"]);
    let places = ["a", "b", "c"];

    let mut transitions = vec![];
    transitions.push(trans("turn_on", eq(&stat, s("off")), vec![assign(&stat, s("on"))]));
    transitions.push(trans("turn_off", eq(&stat, s("on")), vec![assign(&stat, s("off"))]));
    for p1 in places {
        for p2 in places {
            if p1 != p2 {
                transitions.push(trans(
                    &format!("{}_to_{}", p1, p2),
                    Predicate::And(vec![eq(&stat, s("on")), eq(&pos, s(p1))]),
                    vec![assign(&pos, s(p2))],
                ));
            }
        }
    }
    transitions.push(trans("open_gripper", eq(&grip, s("closed")), vec![assign(&grip, s("opened"))]));
    transitions.push(trans("close_gripper", eq(&grip, s("opened")), vec![assign(&grip, s("closed"))]));
    for b in [&box1, &box2, &box3] {
        for p in places {
            transitions.push(trans(
                &format!("pick_{}_at_{}", b.name, p),
                Predicate::And(vec![
                    eq(&stat, s("on")),
                    eq(&occ, Value::Bool(false)),
                    eq(&pos, s(p)),
                    eq(b, s(&format!("at_{p}"))),
                ]),
                vec![assign(&occ, Value::Bool(true)), assign(b, s("at_grip"))],
            ));
        }
    }
    for b in [&box1, &box2, &box3] {
        for p in places {
            transitions.push(trans(
                &format!("place_{}_at_{}", b.name, p),
                Predicate::And(vec![
                    eq(&stat, s("on")),
                    eq(&occ, Value::Bool(true)),
                    eq(&pos, s(p)),
                    eq(b, s("at_grip")),
                ]),
                vec![assign(&occ, Value::Bool(false)), assign(b, s(&format!("at_{p}")))],
            ));
        }
    }

    let init = State {
        state: vec![
            (stat.deep_copy(), s("off")),
            (grip.deep_copy(), s("closed")),
            (occ.deep_copy(), Value::Bool(false)),
            (pos.deep_copy(), s("c")),
            (box1.deep_copy(), s("at_a")),
            (box2.deep_copy(), s("at_b")),
            (box3.deep_copy(), s("at_b")),
        ],
    };
    let goal = Predicate::And(vec![
        eq(&box1, s("at_c")),
        eq(&box2, s("at_c")),
        eq(&box3, s("at_c")),
        eq(&grip, s("closed")),
        eq(&stat, s("off")),
        eq(&pos, s("a")),
    ]);

    assert_eq!(transitions.len(), 28);
    match goal_from_state(&init) {
        Predicate::And(eqs) => assert_eq!(eqs.len(), 7),
        _ => panic!("a goal is a conjunction"),
    }
    assert!(matches!(goal, Predicate::And(ref v) if v.len() == 6));

    let unsolved = PlanningResult { found: false, length: 0, plan: vec![] };
    let not_taken = step_2(&transitions, &vec![unsolved]);
    println!("{:?}", not_taken);
    let mut expected: Vec<String> = transitions.iter().map(|t| t.name.clone()).collect();
    expected.sort();
    assert_eq!(not_taken, expected);
}
