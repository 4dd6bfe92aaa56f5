use sp_hints::anomalies::{coverage_counts, goal_from_state, same_state, sample_states, AnomalySearch};
use sp_hints::model::{Common, PlanningResult, Predicate, State, Value, ValueType, Variable};

fn var(name: &str, vals: &[&str]) -> Variable {
    Variable {
        name: name.to_string(),
        value_type: ValueType::String,
        domain: vals.iter().map(|v| Value::String(v.to_string())).collect(),
    }
}

fn state(v: &Variable, val: &str) -> State {
    State { state: vec![(v.deep_copy(), Value::String(val.to_string()))] }
}

fn value_of(s: &State) -> String {
    match &s.state[0].1 {
        Value::String(x) => x.clone(),
        _ => panic!("a string value"),
    }
}

fn answer(found: bool) -> PlanningResult {
    PlanningResult { found, length: 0, plan: vec![] }
}

#[test]
fn sampled_states_are_distinct_and_in_the_domains() {
    let vars = vec![var("pos", &["a", "b", "c"]), var("stat", &["on", "off"])];
    let states = sample_states(&vars, 100, 50);
    // six states exist
    assert!(states.len() <= 6);
    for (i, s) in states.iter().enumerate() {
        assert_eq!(s.state.len(), 2);
        assert_eq!(s.state[0].0.name, "pos");
        assert_eq!(s.state[1].0.name, "stat");
        assert!(["a", "b", "c"].contains(&value_of(s).as_str()));
        for t in &states[..i] {
            assert!(!same_state(s, t));
        }
    }
}

#[test]
fn sampling_stops_at_the_limits() {
    let vars = vec![var("pos", &["a", "b", "c", "d", "e", "f", "g", "h"])];
    assert!(sample_states(&vars, 3, 50).len() <= 3);
    assert!(sample_states(&vars, 100, 2).len() <= 2);
    assert!(sample_states(&vars, 0, 2).is_empty());
    assert_eq!(sample_states(&vars, 100, 1).len(), 1);
}

#[test]
fn pairs_are_visited_row_by_row_skipping_equal_states() {
    let pos = var("pos", &["a", "b", "c"]);
    let inits = vec![state(&pos, "a"), state(&pos, "b")];
    let goals = vec![state(&pos, "b"), state(&pos, "a"), state(&pos, "c")];
    let mut search = AnomalySearch::new(inits, goals, 10);
    let mut visited = vec![];
    while let Some((init, goal)) = search.next_query() {
        match goal {
            Predicate::And(eqs) => match &eqs[0] {
                Predicate::Eq(Common::Variable(v), Common::Value(Value::String(g))) => {
                    assert_eq!(v.name, "pos");
                    visited.push((value_of(&init), g.clone()));
                },
                _ => panic!("an equality"),
            },
            _ => panic!("a conjunction"),
        }
        let solved = visited.len() % 2 == 1;
        search.record_result(answer(solved));
    }
    // two rows, two columns: the shorter list decides
    assert_eq!(visited, vec![("a".to_string(), "b".to_string()), ("b".to_string(), "a".to_string())]);
    assert_eq!(search.planned(), 2);
    let found = search.into_found();
    assert_eq!(found.len(), 1);
    assert_eq!(value_of(&found[0].0), "a");
    assert_eq!(value_of(&found[0].1), "b");
}

#[test]
fn enough_solutions_end_the_pairing() {
    let pos = var("pos", &["a", "b", "c"]);
    let inits = vec![state(&pos, "a"), state(&pos, "b"), state(&pos, "c")];
    let goals = vec![state(&pos, "c"), state(&pos, "b"), state(&pos, "a")];
    let mut search = AnomalySearch::new(inits, goals, 2);
    let mut queries = 0;
    while search.next_query().is_some() {
        queries += 1;
        search.record_result(answer(true));
    }
    assert_eq!(queries, 2);
    assert_eq!(search.into_found().len(), 2);
}

#[test]
fn no_solutions_wanted_means_no_queries() {
    let pos = var("pos", &["a", "b"]);
    let mut search = AnomalySearch::new(vec![state(&pos, "a")], vec![state(&pos, "b")], 0);
    assert!(search.next_query().is_none());
    assert_eq!(search.planned(), 0);
}

#[test]
fn coverage_counts_of_a_sample() {
    let vars = vec![var("pos", &["a", "b", "c", "d", "e", "f"]), var("stat", &["on", "off"])];
    // 12 states: 144 - 12 ordered pairs of distinct states
    assert_eq!(coverage_counts(&vars, 5, 4), Some((132, 16)));
    assert_eq!(coverage_counts(&vec![], 0, 0), Some((0, 0)));
}

#[test]
fn coverage_counts_out_of_range() {
    let big = Variable {
        name: "big".to_string(),
        value_type: ValueType::Int32,
        domain: (0..70000).map(Value::Int32).collect(),
    };
    let vars = vec![big.deep_copy(), big.deep_copy(), big.deep_copy(), big.deep_copy()];
    // the state space does not fit in the counters
    assert_eq!(coverage_counts(&vars, 1, 1), None);
    // more goals than pairs
    assert_eq!(coverage_counts(&vec![], 0, 3), None);
    assert_eq!(coverage_counts(&vec![], usize::MAX, 2), None);
}

#[test]
fn goal_of_a_state_requires_each_value() {
    let pos = var("pos", &["a", "b"]);
    let stat = var("stat", &["on", "off"]);
    let s = State { state: vec![(pos.deep_copy(), Value::String("b".into())), (stat.deep_copy(), Value::String("on".into()))] };
    match goal_from_state(&s) {
        Predicate::And(eqs) => {
            assert_eq!(eqs.len(), 2);
            match (&eqs[0], &eqs[1]) {
                (
                    Predicate::Eq(Common::Variable(v0), Common::Value(Value::String(x0))),
                    Predicate::Eq(Common::Variable(v1), Common::Value(Value::String(x1))),
                ) => {
                    assert_eq!((v0.name.as_str(), x0.as_str()), ("pos", "b"));
                    assert_eq!((v1.name.as_str(), x1.as_str()), ("stat", "on"));
                },
                _ => panic!("equalities"),
            }
        },
        _ => panic!("a conjunction"),
    }
}

#[test]
fn a_drawn_state_is_kept_once() {
    let pos = var("pos", &["a", "b"]);
    let mut tried = vec![];
    assert!(sp_hints::anomalies::add_sampled_state(&mut tried, state(&pos, "a")));
    assert!(!sp_hints::anomalies::add_sampled_state(&mut tried, state(&pos, "a")));
    assert!(sp_hints::anomalies::add_sampled_state(&mut tried, state(&pos, "b")));
    assert_eq!(tried.len(), 2);
    assert_eq!(value_of(&tried[1]), "b");
}

#[test]
fn sampled_states_never_outnumber_the_state_space() {
    // repeated domain values count once each in the product, which still bounds the sample
    let vars = vec![var("pos", &["a", "a"]), var("stat", &["on"])];
    let states = sample_states(&vars, 500, 50);
    assert!(states.len() <= 2);
    assert_eq!(states.len(), 1);
}
