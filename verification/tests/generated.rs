use sp_hints::generated::{generate_random_transitions, GeneratedSearch};
use sp_hints::model::{Action, Common, PlanningResult, Predicate, State, Transition, Value, ValueType, Variable};

fn var(name: &str, vals: &[&str]) -> Variable {
    Variable {
        name: name.to_string(),
        value_type: ValueType::String,
        domain: vals.iter().map(|v| Value::String(v.to_string())).collect(),
    }
}

fn bool_var(name: &str) -> Variable {
    Variable { name: name.to_string(), value_type: ValueType::Bool, domain: vec![Value::Bool(true), Value::Bool(false)] }
}

fn text(v: &Value) -> String {
    match v {
        Value::String(s) => s.clone(),
        Value::Bool(b) => b.to_string(),
        Value::Int32(i) => i.to_string(),
        other => format!("{:?}", other),
    }
}

/// The values a generated transition requires and sets, variable by variable.
fn guard_and_actions(t: &Transition) -> (Vec<String>, Vec<String>) {
    let guard = match &t.guard {
        Predicate::And(eqs) => eqs
            .iter()
            .map(|p| match p {
                Predicate::Eq(Common::Variable(_), Common::Value(v)) => text(v),
                _ => panic!("a generated guard is a conjunction of equalities"),
            })
            .collect(),
        _ => panic!("a generated guard is a conjunction"),
    };
    let actions = t
        .actions
        .iter()
        .map(|a: &Action| match &a.common {
            Common::Value(v) => text(v),
            _ => panic!("a generated action sets a value"),
        })
        .collect();
    (guard, actions)
}

fn answer(found: bool, plan: &[String]) -> PlanningResult {
    PlanningResult { found, length: plan.len(), plan: plan.to_vec() }
}

#[test]
fn test_generate_random_transitions() {
    let pos = var("pos", &["a", "b", "c"]);
    let stat = var("stat", &["on", "off"]);
    let grip = var("grip", &["opened", "closed"]);
    let occ = bool_var("occ");
    let vars = vec![pos, stat, grip, occ];
    let gts1 = generate_random_transitions("some_name", &vars, 3, 30);
    assert_eq!(gts1.len(), 3)
}

#[test]
fn test_generate_random_transitions_less() {
    let pos = var("pos", &["a", "b"]);
    let vars = vec![pos];
    let gts1 = generate_random_transitions("some_name", &vars, 30, 100);
    assert_eq!(gts1.len(), 2)
}

#[test]
fn generated_transitions_are_named_distinct_and_move() {
    let vars = vec![var("pos", &["a", "b", "c"]), bool_var("occ")];
    let gts = generate_random_transitions("ns", &vars, 5, 200);
    assert!(gts.len() <= 5);
    let mut seen = vec![];
    for (k, t) in gts.iter().enumerate() {
        assert_eq!(t.name, format!("ns_{}", k + 1));
        let (guard, actions) = guard_and_actions(t);
        assert_eq!(guard.len(), 2);
        assert!(["a", "b", "c"].contains(&guard[0].as_str()));
        assert!(["true", "false"].contains(&guard[1].as_str()));
        assert!(["a", "b", "c"].contains(&actions[0].as_str()));
        assert_ne!(guard, actions);
        assert!(!seen.contains(&(guard.clone(), actions.clone())));
        seen.push((guard, actions));
    }
}

#[test]
fn single_valued_domains_give_no_transition() {
    let vars = vec![var("x", &["only"]), var("y", &["one"])];
    assert!(generate_random_transitions("ns", &vars, 4, 10).is_empty());
}

#[test]
fn asking_for_none_gives_none() {
    // no draw is made, so an empty domain does no harm
    let vars = vec![var("x", &[])];
    assert!(generate_random_transitions("ns", &vars, 0, 10).is_empty());
}

#[test]
fn tries_bound_the_number_generated() {
    let vars = vec![var("x", &["0", "1", "2", "3", "4", "5", "6", "7"])];
    // one try is made when no further tries are allowed
    assert!(generate_random_transitions("ns", &vars, 10, 0).len() <= 1);
}

#[test]
fn search_with_solved_scenarios_ends_at_once() {
    let vars = vec![var("pos", &["a", "b"])];
    let initial = vec![answer(true, &[])];
    let mut search = GeneratedSearch::new(3, 2, 10, true, &initial);
    assert!(search.is_finished());
    assert!(search.next_candidate(&vec![], &vars).is_none());
    let hint = search.into_hint();
    assert!(hint.frames.is_empty());
    assert!(hint.trans.is_empty());
}

#[test]
fn search_keeps_sets_that_solve_every_scenario() {
    let pos = var("pos", &["a", "b"]);
    let vars = vec![pos.deep_copy()];
    let combos = vec![
        (State { state: vec![(pos.deep_copy(), Value::String("a".into()))] }, Predicate::True),
        (State { state: vec![(pos.deep_copy(), Value::String("b".into()))] }, Predicate::False),
    ];
    let initial = vec![answer(false, &[]), answer(true, &[])];
    let mut search = GeneratedSearch::new(1, 1, 10, false, &initial);
    let model: Vec<Transition> = vec![];
    let extended = search.next_candidate(&model, &vars).expect("a first set is drawn");
    assert!(search.awaiting_results());
    // a round of one transition, named after the round and the success count
    assert_eq!(extended.len(), 1);
    assert_eq!(extended[0].name, "1_1_1");
    let name = extended[0].name.clone();
    // the first scenario's plan uses the new transition, the second's does not
    search.record_results(&combos, &vec![answer(true, &[name.clone()]), answer(true, &[])]);
    assert!(!search.awaiting_results());
    // one success was all the round asked for, and it was the last round
    assert!(search.is_finished());
    assert!(search.next_candidate(&model, &vars).is_none());
    let hint = search.into_hint();
    assert_eq!(hint.trans.len(), 1);
    assert_eq!(hint.trans[0].grade, 0);
    assert_eq!(hint.trans[0].trans[0].name, name);
    assert_eq!(hint.frames.len(), 1);
    assert_eq!(hint.frames[0].result.plan, vec![name]);
    assert_eq!(hint.frames[0].grade, 0);
}

#[test]
fn search_drops_sets_that_leave_a_scenario_unsolved() {
    let pos = var("pos", &["a", "b"]);
    let vars = vec![pos.deep_copy()];
    let combos = vec![(State { state: vec![(pos.deep_copy(), Value::String("a".into()))] }, Predicate::True)];
    let initial = vec![answer(false, &[])];
    let mut search = GeneratedSearch::new(1, 5, 0, false, &initial);
    let model: Vec<Transition> = vec![];
    // the generator gets no further tries either, so its one draw may fail
    let extended = search.next_candidate(&model, &vars).expect("a set is drawn");
    assert!(extended.len() <= 1);
    search.record_results(&combos, &vec![answer(false, &[])]);
    // no tries are left in the only round
    assert!(search.is_finished());
    assert!(search.next_candidate(&model, &vars).is_none());
    let hint = search.into_hint();
    assert!(hint.trans.is_empty());
    assert!(hint.frames.is_empty());
}

#[test]
fn search_never_hands_out_a_set_twice() {
    // with two values there are two possible single transitions, and the
    // empty set if every draw fails
    let pos = var("pos", &["a", "b"]);
    let vars = vec![pos.deep_copy()];
    let combos = vec![(State { state: vec![(pos.deep_copy(), Value::String("a".into()))] }, Predicate::True)];
    let initial = vec![answer(false, &[])];
    let mut search = GeneratedSearch::new(1, 10, 200, false, &initial);
    let model: Vec<Transition> = vec![];
    let mut handed_out = 0;
    while let Some(extended) = search.next_candidate(&model, &vars) {
        assert_eq!(extended.len(), 1);
        handed_out += 1;
        search.record_results(&combos, &vec![answer(false, &[])]);
    }
    assert!(handed_out <= 3);
}

fn sv(x: &str) -> Value {
    Value::String(x.to_string())
}

#[test]
fn a_draw_is_kept_when_it_moves_and_is_new() {
    let vars = vec![var("pos", &["a", "b"]), var("stat", &["on", "off"])];
    let mut generated = vec![];
    assert!(sp_hints::generated::add_drawn_transition("ns", &vars, &mut generated, &vec![sv("a"), sv("on")], &vec![sv("b"), sv("on")]));
    assert_eq!(generated.len(), 1);
    assert_eq!(generated[0].name, "ns_1");
    assert_eq!(guard_and_actions(&generated[0]), (vec!["a".to_string(), "on".to_string()], vec!["b".to_string(), "on".to_string()]));
    // a draw that does not move is dropped
    assert!(!sp_hints::generated::add_drawn_transition("ns", &vars, &mut generated, &vec![sv("a"), sv("on")], &vec![sv("a"), sv("on")]));
    // a draw that does what a kept transition does is dropped, whatever its name would be
    assert!(!sp_hints::generated::add_drawn_transition("other", &vars, &mut generated, &vec![sv("a"), sv("on")], &vec![sv("b"), sv("on")]));
    assert_eq!(generated.len(), 1);
    // a new move is kept under the next number
    assert!(sp_hints::generated::add_drawn_transition("ns", &vars, &mut generated, &vec![sv("b"), sv("on")], &vec![sv("a"), sv("off")]));
    assert_eq!(generated[1].name, "ns_2");
}

#[test]
fn offered_sets_are_kept_once() {
    let pos = var("pos", &["a", "b"]);
    let vars = vec![pos.deep_copy()];
    let initial = vec![answer(false, &[])];
    let mut search = GeneratedSearch::new(2, 3, 5, false, &initial);
    // a round must be started before sets are offered
    assert!(search.advance_round());
    let mut set = vec![];
    sp_hints::generated::add_drawn_transition("1_1", &vars, &mut set, &vec![sv("a")], &vec![sv("b")]);
    let mut same = vec![];
    sp_hints::generated::add_drawn_transition("1_2", &vars, &mut same, &vec![sv("a")], &vec![sv("b")]);
    let model = vec![];
    let extended = search.offer_candidate(set, &model).expect("a new set is kept");
    assert_eq!(extended.len(), 1);
    assert!(search.awaiting_results());
    search.record_results(&vec![], &vec![]);
    // every scenario (none) was solved: one success; the same set again is dropped
    assert!(search.offer_candidate(same, &model).is_none());
    assert!(!search.awaiting_results());
    let hint = search.into_hint();
    assert_eq!(hint.trans.len(), 1);
}

#[test]
fn the_first_draw_of_a_search_is_handed_out() {
    // whatever the draw, nothing was tried before it
    let vars = vec![var("pos", &["a", "b"])];
    let initial = vec![answer(false, &[])];
    let mut search = GeneratedSearch::new(1, 1, 0, false, &initial);
    assert!(search.will_draw());
    assert!(search.next_candidate(&vec![], &vars).is_some());
}

#[test]
fn no_success_asked_means_no_draw() {
    // an empty domain does no harm when no round asks for a success
    let vars = vec![var("pos", &[])];
    let initial = vec![answer(false, &[])];
    let mut search = GeneratedSearch::new(3, 0, 5, false, &initial);
    assert!(!search.will_draw());
    assert!(search.next_candidate(&vec![], &vars).is_none());
    let hint = search.into_hint();
    assert!(hint.trans.is_empty());
}

#[test]
fn an_empty_set_is_never_kept() {
    let initial = vec![answer(false, &[])];
    let mut search = GeneratedSearch::new(1, 1, 3, false, &initial);
    assert!(search.advance_round());
    assert!(search.offer_candidate(vec![], &vec![]).is_some());
    // even answers that are all found do not keep the unchanged model
    search.record_results(&vec![], &vec![]);
    assert!(!search.is_finished());
    assert!(search.into_hint().trans.is_empty());
}

#[test]
fn rounds_end_at_the_last_one() {
    let initial = vec![answer(false, &[])];
    let mut search = GeneratedSearch::new(1, 1, 0, false, &initial);
    assert!(!search.is_finished());
    assert!(search.advance_round());
    assert!(!search.is_finished());
    // the only try of the round
    assert!(search.offer_candidate(vec![], &vec![]).is_some());
    search.record_results(&vec![], &vec![]);
    assert!(search.is_finished());
    assert!(!search.advance_round());
}
