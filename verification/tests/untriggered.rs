use sp_hints::model::{Action, Common, PlanningResult, Predicate, Transition, Value, ValueType, Variable};
use sp_hints::untriggered::step_2;

fn var(name: &str, vals: &[&str]) -> Variable {
    Variable {
        name: name.to_string(),
        value_type: ValueType::String,
        domain: vals.iter().map(|v| Value::String(v.to_string())).collect(),
    }
}

fn eq(v: &Variable, val: &str) -> Predicate {
    Predicate::Eq(Common::Variable(v.deep_copy()), Common::Value(Value::String(val.to_string())))
}

fn assign(v: &Variable, val: &str) -> Action {
    Action { var: v.deep_copy(), common: Common::Value(Value::String(val.to_string())) }
}

fn trans(name: &str, guard: Predicate, actions: Vec<Action>) -> Transition {
    Transition { name: name.to_string(), guard, actions }
}

fn answer(found: bool, plan: &[&str]) -> PlanningResult {
    PlanningResult { found, length: plan.len(), plan: plan.iter().map(|s| s.to_string()).collect() }
}

fn names(v: &[&str]) -> Vec<String> {
    v.iter().map(|s| s.to_string()).collect()
}

/// A mover with a switch, with a fault in `b_to_c`.
fn faulty_model(stat: &Variable, pos: &Variable) -> Vec<Transition> {
    vec![
        trans("a_to_b", Predicate::And(vec![eq(pos, "a"), eq(stat, "on")]), vec![assign(pos, "b")]),
        trans("b_to_c", Predicate::And(vec![eq(pos, "b"), eq(stat, "on")]), vec![assign(pos, "a")]),
        trans("c_to_d", Predicate::And(vec![eq(pos, "c"), eq(stat, "on")]), vec![assign(pos, "d")]),
        trans("turn_on", eq(stat, "off"), vec![assign(stat, "on")]),
        trans("turn_off", eq(stat, "on"), vec![assign(stat, "off")]),
    ]
}

// The planner's answers for the scenarios are written out: pos a, stat off to pos d and stat off cannot be reached; to stat on
// takes turn_on; to pos b takes turn_on then a_to_b.
#[test]
fn test_step_2() {
    let stat = var("stat", &["on", "off"]);
    let pos = var("pos", &["a", "b", "c", "d", "e", "f"]);
    let model = faulty_model(&stat, &pos);

    let mut results = vec![
        answer(false, &[]),
        answer(true, &["turn_on"]),
        answer(true, &["turn_on", "a_to_b"]),
    ];
    let not_taken = step_2(&model, &results);
    println!("not taken: {:?}", not_taken);
    assert_eq!(not_taken, names(&["b_to_c", "c_to_d", "turn_off"]));

    // pos b, stat on to pos c cannot be reached; pos c, stat on to pos d
    // takes c_to_d; to stat off takes turn_off.
    results.push(answer(false, &[]));
    results.push(answer(true, &["c_to_d"]));
    results.push(answer(true, &["turn_off"]));
    let not_taken = step_2(&model, &results);
    println!("not taken: {:?}", not_taken);
    assert_eq!(not_taken, names(&["b_to_c"]));
}

#[test]
fn test_step_2_2() {
    let stat = var("stat", &["on", "off"]);
    let pos = var("pos", &["a", "b", "c", "d", "e", "f"]);
    let letters = ["a", "b", "c", "d", "e", "f"];
    let mut model = vec![];
    let mut moves = vec![];
    for p1 in letters {
        for p2 in letters {
            if p1 != p2 {
                let name = format!("{}_to_{}", p1, p2);
                // the fault: each move leaves the position where it was
                model.push(trans(&name, Predicate::And(vec![eq(&pos, p1), eq(&stat, "on")]), vec![assign(&pos, p1)]));
                moves.push(name);
            }
        }
    }
    model.push(trans("turn_on", eq(&stat, "off"), vec![assign(&stat, "on")]));
    model.push(trans("turn_off", eq(&stat, "on"), vec![assign(&stat, "off")]));

    // No move changes the position, so only the scenarios that change the
    // switch are solved.
    let mut results = vec![answer(false, &[]), answer(true, &["turn_on"]), answer(false, &[])];
    let not_taken = step_2(&model, &results);
    println!("not taken: {:?}", not_taken);
    let mut expected = moves.clone();
    expected.push("turn_off".to_string());
    expected.sort();
    assert_eq!(not_taken, expected);

    results.push(answer(false, &[]));
    results.push(answer(false, &[]));
    results.push(answer(true, &["turn_off"]));
    let not_taken = step_2(&model, &results);
    println!("not taken: {:?}", not_taken);
    let mut expected = moves.clone();
    expected.sort();
    assert_eq!(not_taken, expected);
    assert_eq!(not_taken.len(), 30);
}

#[test]
fn step_2_lists_each_name_once_in_order() {
    let x = var("x", &["0", "1"]);
    let model = vec![
        trans("b", eq(&x, "0"), vec![assign(&x, "1")]),
        trans("ab", eq(&x, "0"), vec![assign(&x, "1")]),
        trans("a", eq(&x, "1"), vec![assign(&x, "0")]),
        trans("b", eq(&x, "1"), vec![assign(&x, "0")]),
        trans("ba", eq(&x, "1"), vec![assign(&x, "0")]),
    ];
    let not_taken = step_2(&model, &vec![]);
    assert_eq!(not_taken, names(&["a", "ab", "b", "ba"]));
}

#[test]
fn step_2_ignores_plans_not_found() {
    let x = var("x", &["0", "1"]);
    let model = vec![
        trans("up", eq(&x, "0"), vec![assign(&x, "1")]),
        trans("down", eq(&x, "1"), vec![assign(&x, "0")]),
    ];
    // a plan that was not found does not count, even if it names transitions
    let results = vec![answer(false, &["up", "down"]), answer(true, &["down", "elsewhere"])];
    assert_eq!(step_2(&model, &results), names(&["up"]));
}

#[test]
fn step_2_of_empty_model_is_empty() {
    let results = vec![answer(true, &["up"])];
    assert!(step_2(&vec![], &results).is_empty());
}

#[test]
fn step_2_orders_by_code_point() {
    let x = var("x", &["0"]);
    let model = vec![
        trans("é", eq(&x, "0"), vec![]),
        trans("z", eq(&x, "0"), vec![]),
        trans("Z", eq(&x, "0"), vec![]),
        trans("", eq(&x, "0"), vec![]),
    ];
    assert_eq!(step_2(&model, &vec![]), names(&["", "Z", "z", "é"]));
}

#[test]
fn the_order_and_repetition_of_answers_do_not_matter() {
    let stat = var("stat", &["on", "off"]);
    let pos = var("pos", &["a", "b", "c", "d", "e", "f"]);
    let model = faulty_model(&stat, &pos);
    let results = vec![
        answer(false, &[]),
        answer(true, &["turn_on"]),
        answer(true, &["turn_on", "a_to_b"]),
    ];
    let reordered = vec![
        answer(true, &["turn_on", "a_to_b"]),
        answer(false, &[]),
        answer(true, &["turn_on"]),
        answer(true, &["turn_on"]),
    ];
    assert_eq!(step_2(&model, &results), step_2(&model, &reordered));
    assert_eq!(step_2(&model, &reordered), names(&["b_to_c", "c_to_d", "turn_off"]));
}
