//! Looking for anomalies: random pairs of distinct initial and goal states,
//! the pairs among them that the planner can solve, and how much of the
//! state space the sample covers.
use vstd::prelude::*;
use crate::generated::{domains_nonempty, drawn_from};
use crate::model::{
    Common, PlanningResult, Predicate, SpecCommon, SpecPlanningResult, SpecPredicate, SpecValue,
    SpecVariable, State, Value, Variable, lemma_predicates_view, predicates_view, values_view,
    variables_view,
};
use crate::random::{choose_value, seeded_rng};
use rand::rngs::StdRng;

verus! {

/// The view of a state.
pub type SpecState = Seq<(SpecVariable, SpecValue)>;

/// The state that gives each variable the value at the same position.
pub open spec fn state_of(vars: Seq<SpecVariable>, vals: Seq<SpecValue>) -> SpecState {
    Seq::new(vars.len(), |i: int| (vars[i], vals[i]))
}

/// The goal of reaching `s`: a conjunction of one equality per variable.
pub open spec fn goal_of(s: SpecState) -> SpecPredicate {
    SpecPredicate::And(
        Seq::new(
            s.len(),
            |i: int| SpecPredicate::Eq(SpecCommon::Variable(s[i].0), SpecCommon::Value(s[i].1)),
        ),
    )
}

/// `s` gives each variable of `vars` a value of its domain.
pub open spec fn is_sampled_state(vars: Seq<SpecVariable>, s: SpecState) -> bool {
    exists|vals: Seq<SpecValue>| #[trigger] drawn_from(vars, vals) && s == state_of(vars, vals)
}

/// The goal of reaching `state`.
pub fn goal_from_state(state: &State) -> (p: Predicate)
    ensures
        p@ == goal_of(state@),
{
    let mut eqs: Vec<Predicate> = Vec::new();
    let mut i: usize = 0;
    while i < state.state.len()
        invariant
            i <= state.state.len(),
            eqs.len() == i,
            forall|j: int|
                0 <= j < i ==> (#[trigger] eqs@[j])@ == SpecPredicate::Eq(
                    SpecCommon::Variable(state@[j].0),
                    SpecCommon::Value(state@[j].1),
                ),
        decreases state.state.len() - i,
    {
        let eq = Predicate::Eq(
            Common::Variable(state.state[i].0.deep_copy()),
            Common::Value(state.state[i].1.deep_copy()),
        );
        eqs.push(eq);
        i = i + 1;
    }
    proof {
        lemma_predicates_view(&eqs);
        assert(predicates_view(&eqs) =~= goal_of(state@)->And_0);
    }
    Predicate::And(eqs)
}

/// Whether two states are the same, pair by pair.
pub fn same_state(a: &State, b: &State) -> (r: bool)
    ensures
        r == (a@ == b@),
{
    if a.state.len() != b.state.len() {
        proof {
            assert(a@.len() != b@.len());
        }
        return false;
    }
    let mut i: usize = 0;
    while i < a.state.len()
        invariant
            a.state.len() == b.state.len(),
            i <= a.state.len(),
            forall|j: int| 0 <= j < i ==> a@[j] == b@[j],
        decreases a.state.len() - i,
    {
        if !(a.state[i].0.same(&b.state[i].0) && a.state[i].1.same(&b.state[i].1)) {
            proof {
                assert(a@[i as int] != b@[i as int]);
            }
            return false;
        }
        i = i + 1;
    }
    proof {
        assert(a@ =~= b@);
    }
    true
}

/// The state that gives each variable of `vars` the value at the same
/// position of `vals`.
fn build_state(vars: &Vec<Variable>, vals: &Vec<Value>) -> (s: State)
    requires
        vals.len() == vars.len(),
    ensures
        s@ == state_of(variables_view(vars@), values_view(vals@)),
{
    let mut pairs: Vec<(Variable, Value)> = Vec::new();
    let mut i: usize = 0;
    while i < vars.len()
        invariant
            i <= vars.len(),
            vals.len() == vars.len(),
            pairs.len() == i,
            forall|j: int|
                0 <= j < i ==> (#[trigger] pairs@[j]).0@ == vars@[j]@ && pairs@[j].1@ == vals@[j]@,
        decreases vars.len() - i,
    {
        pairs.push((vars[i].deep_copy(), vals[i].deep_copy()));
        i = i + 1;
    }
    let s = State { state: pairs };
    proof {
        assert(s@ =~= state_of(variables_view(vars@), values_view(vals@)));
    }
    s
}

/// Draws a value of each variable's domain with `rng`.
fn draw_state(vars: &Vec<Variable>, rng: &mut StdRng) -> (s: State)
    requires
        domains_nonempty(vars@),
    ensures
        is_sampled_state(variables_view(vars@), s@),
{
    let mut vals: Vec<Value> = Vec::new();
    let mut i: usize = 0;
    while i < vars.len()
        invariant
            i <= vars.len(),
            domains_nonempty(vars@),
            vals.len() == i,
            forall|j: int| 0 <= j < i ==> values_view(vars@[j].domain@).contains(#[trigger] vals@[j]@),
        decreases vars.len() - i,
    {
        match choose_value(&vars[i].domain, rng) {
            Some(v) => {
                let c = v.deep_copy();
                proof {
                    let k = choose|k: int| 0 <= k < vars@[i as int].domain@.len() && vars@[i as int].domain@[k] == *v;
                    assert(values_view(vars@[i as int].domain@)[k] == c@);
                }
                vals.push(c);
            },
            None => {
                proof {
                    assert(vars@[i as int].domain@.len() > 0);
                }
            },
        }
        i = i + 1;
    }
    let s = build_state(vars, &vals);
    proof {
        let vv = variables_view(vars@);
        let xs = values_view(vals@);
        assert forall|j: int| 0 <= j < vv.len() implies #[trigger] vv[j].domain.contains(xs[j]) by {
            assert(vv[j].domain == values_view(vars@[j].domain@));
        }
        assert(drawn_from(vv, xs));
    }
    s
}

/// Whether `states` holds a state equal to `s`.
fn contains_state(states: &Vec<State>, s: &State) -> (r: bool)
    ensures
        r == exists|k: int| 0 <= k < states.len() && (#[trigger] states@[k])@ == s@,
{
    let mut k: usize = 0;
    while k < states.len()
        invariant
            k <= states.len(),
            forall|j: int| 0 <= j < k ==> (#[trigger] states@[j])@ != s@,
        decreases states.len() - k,
    {
        if same_state(&states[k], s) {
            return true;
        }
        k = k + 1;
    }
    false
}

/// Takes one drawn state: adds `s` to `tried` unless an equal state is
/// there already, and returns whether it did.
pub fn add_sampled_state(tried: &mut Vec<State>, s: State) -> (added: bool)
    ensures
        added == !exists|k: int| 0 <= k < old(tried).len() && (#[trigger] old(tried)@[k])@ == s@,
        added ==> states_view(final(tried)@) == states_view(old(tried)@).push(s@),
        !added ==> states_view(final(tried)@) == states_view(old(tried)@),
{
    if contains_state(tried, &s) {
        return false;
    }
    let ghost before = tried@;
    let ghost sv = s@;
    tried.push(s);
    proof {
        assert(states_view(tried@) =~= states_view(before).push(sv));
    }
    true
}

/// The distinct states among `draws`, in the order they were first drawn.
pub open spec fn distinct_draws(draws: Seq<SpecState>) -> Seq<SpecState>
    decreases draws.len(),
{
    if draws.len() == 0 {
        Seq::empty()
    } else {
        let before = distinct_draws(draws.drop_last());
        if before.contains(draws.last()) {
            before
        } else {
            before.push(draws.last())
        }
    }
}

/// `result` is what sampling gives for the draws `draws`: when the random
/// source could not be seeded (`source_failed`) no draw was made; every draw
/// is a state over `vars`; the result is the distinct draws in order; a draw
/// was made only while fewer than `max_state_combinations` distinct states
/// were found; and drawing stopped after `max_tries` draws, on reaching that
/// number of distinct states, or at once on a failed source.
pub open spec fn sampling_run(
    vars: Seq<SpecVariable>,
    max_tries: nat,
    max_state_combinations: nat,
    source_failed: bool,
    draws: Seq<SpecState>,
    result: Seq<SpecState>,
) -> bool {
    &&& source_failed ==> draws.len() == 0
    &&& draws.len() <= max_tries
    &&& forall|i: int| 0 <= i < draws.len() ==> is_sampled_state(vars, #[trigger] draws[i])
    &&& result == distinct_draws(draws)
    &&& forall|p: int| 0 <= p < draws.len() ==> #[trigger] distinct_draws(draws.take(p)).len() < max_state_combinations
    &&& (source_failed || draws.len() == max_tries || result.len() == max_state_combinations)
}

/// Draws random states over `vars` until `max_state_combinations` distinct
/// ones were found or `max_tries` draws were made, and returns the distinct
/// states in the order they were first drawn. The draws come from a
/// generator seeded by the operating system; where it cannot be seeded, no
/// draw is made and the result is empty.
pub fn sample_states(vars: &Vec<Variable>, max_tries: usize, max_state_combinations: usize) -> (r: Vec<State>)
    requires
        max_tries > 0 && max_state_combinations > 0 ==> domains_nonempty(vars@),
    ensures
        r.len() <= max_state_combinations,
        r.len() <= max_tries,
        r.len() <= domain_product(variables_view(vars@), vars.len() as nat),
        forall|i: int| 0 <= i < r.len() ==> is_sampled_state(variables_view(vars@), #[trigger] r@[i]@),
        forall|i: int, j: int| 0 <= i < j < r.len() ==> (#[trigger] r@[i])@ != (#[trigger] r@[j])@,
        exists|source_failed: bool, draws: Seq<SpecState>|
            #[trigger] sampling_run(
                variables_view(vars@),
                max_tries as nat,
                max_state_combinations as nat,
                source_failed,
                draws,
                states_view(r@),
            ) && (max_tries > 0 && max_state_combinations > 0 && !source_failed ==> r.len() >= 1),
{
    let mut tried: Vec<State> = Vec::new();
    let mut rng = match seeded_rng() {
        Some(g) => g,
        None => {
            proof {
                let none: Seq<SpecState> = Seq::empty();
                assert(states_view(tried@) =~= distinct_draws(none));
                assert(sampling_run(
                    variables_view(vars@),
                    max_tries as nat,
                    max_state_combinations as nat,
                    true,
                    none,
                    states_view(tried@),
                ));
                lemma_sampled_states_bound(variables_view(vars@), none);
            }
            return tried;
        },
    };
    let mut nr_tries: usize = 0;
    let mut nr_combinations: usize = 0;
    let ghost mut draws: Seq<SpecState> = Seq::empty();
    proof {
        assert(states_view(tried@) =~= distinct_draws(draws));
    }
    while !(max_state_combinations <= nr_combinations || max_tries <= nr_tries)
        invariant
            max_tries > 0 && max_state_combinations > 0 ==> domains_nonempty(vars@),
            nr_combinations == tried.len(),
            nr_combinations <= max_state_combinations,
            nr_combinations <= nr_tries,
            nr_tries <= max_tries,
            nr_tries > 0 ==> nr_combinations >= 1,
            forall|i: int| 0 <= i < tried.len() ==> is_sampled_state(variables_view(vars@), #[trigger] tried@[i]@),
            forall|i: int, j: int| 0 <= i < j < tried.len() ==> (#[trigger] tried@[i])@ != (#[trigger] tried@[j])@,
            draws.len() == nr_tries,
            forall|i: int| 0 <= i < draws.len() ==> is_sampled_state(variables_view(vars@), #[trigger] draws[i]),
            states_view(tried@) == distinct_draws(draws),
            forall|p: int|
                0 <= p < draws.len() ==> #[trigger] distinct_draws(draws.take(p)).len() < max_state_combinations,
        decreases max_tries - nr_tries,
    {
        let s = draw_state(vars, &mut rng);
        let ghost sv = s@;
        let ghost before = tried@;
        let ghost old_draws = draws;
        proof {
            draws = draws.push(sv);
            assert(draws.drop_last() =~= old_draws);
            assert(old_draws.take(old_draws.len() as int) =~= old_draws);
            assert forall|p: int| 0 <= p < draws.len() implies #[trigger] distinct_draws(draws.take(p)).len()
                < max_state_combinations by {
                if p < old_draws.len() {
                    assert(draws.take(p) =~= old_draws.take(p));
                } else {
                    assert(draws.take(p) =~= old_draws);
                    assert(distinct_draws(old_draws).len() == tried.len()) by {
                        assert(states_view(before).len() == before.len());
                    }
                }
            }
            assert(states_view(before).contains(sv) == exists|k: int| 0 <= k < before.len() && (#[trigger] before[k])@ == sv) by {
                if states_view(before).contains(sv) {
                    let k = choose|k: int| 0 <= k < states_view(before).len() && states_view(before)[k] == sv;
                    assert(before[k]@ == sv);
                }
                if exists|k: int| 0 <= k < before.len() && (#[trigger] before[k])@ == sv {
                    let k = choose|k: int| 0 <= k < before.len() && (#[trigger] before[k])@ == sv;
                    assert(states_view(before)[k] == sv);
                }
            }
        }
        if add_sampled_state(&mut tried, s) {
            nr_combinations = nr_combinations + 1;
            proof {
                assert(states_view(tried@).len() == states_view(before).len() + 1);
                assert forall|k: int| 0 <= k < tried.len() implies (#[trigger] tried@[k])@ == if k < before.len() {
                    before[k]@
                } else {
                    sv
                } by {
                    assert(states_view(tried@)[k] == tried@[k]@);
                    if k < before.len() {
                        assert(states_view(before)[k] == before[k]@);
                    }
                }
            }
        } else {
            proof {
                assert(states_view(tried@).len() == states_view(before).len());
                assert forall|k: int| 0 <= k < tried.len() implies (#[trigger] tried@[k])@ == before[k]@ by {
                    assert(states_view(tried@)[k] == tried@[k]@);
                    assert(states_view(before)[k] == before[k]@);
                }
            }
        }
        nr_tries = nr_tries + 1;
    }
    proof {
        assert(sampling_run(
            variables_view(vars@),
            max_tries as nat,
            max_state_combinations as nat,
            false,
            draws,
            states_view(tried@),
        ));
        let sv = states_view(tried@);
        assert forall|i: int| 0 <= i < sv.len() implies is_sampled_state(variables_view(vars@), #[trigger] sv[i]) by {
            assert(sv[i] == tried@[i]@);
        }
        assert forall|i: int, j: int| 0 <= i < j < sv.len() implies #[trigger] sv[i] != #[trigger] sv[j] by {
            assert(sv[i] == tried@[i]@);
            assert(sv[j] == tried@[j]@);
        }
        lemma_sampled_states_bound(variables_view(vars@), sv);
    }
    tried
}

/// The pairing of sampled initial states with sampled goal states. Pairs
/// are visited row by row over the first `n` states of each list, `n` the
/// shorter length; a pair of equal states is skipped, and once enough
/// solutions were found every remaining row is skipped. The planner runs
/// outside: `next_query` hands out the next pair to plan, `record_result`
/// takes the planner's answer for it.
pub struct AnomalySearch {
    inits: Vec<State>,
    goals: Vec<State>,
    max_solutions: usize,
    x: usize,
    y: usize,
    planned: usize,
    found: Vec<(State, State, PlanningResult)>,
    pending: bool,
}

pub struct SpecAnomalySearch {
    pub inits: Seq<SpecState>,
    pub goals: Seq<SpecState>,
    pub max_solutions: usize,
    /// The row of the next pair to visit.
    pub x: nat,
    /// The column of the next pair to visit.
    pub y: nat,
    /// How many pairs were handed to the planner.
    pub planned: nat,
    /// The solved pairs, with the planner's answers.
    pub found: Seq<(SpecState, SpecState, SpecPlanningResult)>,
    /// Whether the pair at `x`, `y` waits for the planner's answer.
    pub pending: bool,
}

/// The number of rows and of columns visited.
pub open spec fn pair_count(s: SpecAnomalySearch) -> int {
    if s.inits.len() <= s.goals.len() {
        s.inits.len() as int
    } else {
        s.goals.len() as int
    }
}

/// Moves past every pair that is not to be planned: to the next pair of
/// distinct states, or past the last row.
pub open spec fn advance(s: SpecAnomalySearch) -> SpecAnomalySearch
    decreases pair_count(s) - s.x, pair_count(s) - s.y,
{
    let n = pair_count(s);
    if s.x >= n {
        s
    } else if s.y >= n || s.found.len() >= s.max_solutions {
        advance(SpecAnomalySearch { x: s.x + 1, y: 0, ..s })
    } else if s.inits[s.x as int] != s.goals[s.y as int] {
        s
    } else {
        advance(SpecAnomalySearch { y: s.y + 1, ..s })
    }
}

/// The state after the planner's answer `r` for the pending pair: a solved
/// pair is kept, and the visit moves to the next column.
pub open spec fn after_answer(s: SpecAnomalySearch, r: SpecPlanningResult) -> SpecAnomalySearch {
    SpecAnomalySearch {
        found: if r.found {
            s.found.push((s.inits[s.x as int], s.goals[s.y as int], r))
        } else {
            s.found
        },
        y: s.y + 1,
        pending: false,
        ..s
    }
}

proof fn lemma_advance_skips_equal(t: SpecAnomalySearch, y2: nat)
    requires
        t.x < pair_count(t),
        t.y <= y2 <= pair_count(t),
        t.found.len() < t.max_solutions,
        forall|y: int| t.y <= y < y2 ==> t.inits[t.x as int] == #[trigger] t.goals[y],
    ensures
        advance(t) == advance(SpecAnomalySearch { y: y2, ..t }),
    decreases y2 - t.y,
{
    if t.y < y2 {
        let u = SpecAnomalySearch { y: t.y + 1, ..t };
        assert(t.inits[t.x as int] == t.goals[t.y as int]);
        lemma_advance_skips_equal(u, y2);
        assert(SpecAnomalySearch { y: y2, ..u } == SpecAnomalySearch { y: y2, ..t });
    } else {
        assert(t == SpecAnomalySearch { y: y2, ..t });
    }
}

/// After the planner's answer for the pending pair, while fewer than
/// `max_solutions` solutions are kept, the next pair handed out is the next
/// pair of distinct states in the same row: the visit moves on by one column
/// and skips only pairs of equal states, so every pair of distinct states of
/// the row gets its turn.
pub proof fn lemma_next_pair_in_row(s: SpecAnomalySearch, r: SpecPlanningResult, y2: nat)
    requires
        anomaly_wf(s),
        s.pending,
        s.found.len() + (if r.found { 1int } else { 0int }) < s.max_solutions,
        s.y < y2 < pair_count(s),
        s.inits[s.x as int] != s.goals[y2 as int],
        forall|y: int| s.y < y < y2 ==> s.inits[s.x as int] == #[trigger] s.goals[y],
    ensures
        advance(after_answer(s, r)).x == s.x,
        advance(after_answer(s, r)).y == y2,
        advance(after_answer(s, r)).found.len() < s.max_solutions,
{
    let t = after_answer(s, r);
    lemma_advance_skips_equal(t, y2);
    let u = SpecAnomalySearch { y: y2, ..t };
    assert(pair_count(u) == pair_count(s));
    assert(advance(u) == u);
}

/// The consistency of a pairing: the visit stays within the pairs, counts
/// at most one planner run per visited pair, and every kept solution is a
/// solved pair of distinct sampled states, no more of them than asked for.
pub open spec fn anomaly_wf(s: SpecAnomalySearch) -> bool {
    &&& s.inits.len() * s.goals.len() <= usize::MAX
    &&& s.x <= pair_count(s)
    &&& s.y <= pair_count(s)
    &&& s.x == pair_count(s) ==> s.y == 0
    &&& s.planned <= s.x * pair_count(s) + s.y + if s.pending { 1int } else { 0int }
    &&& s.found.len() <= s.max_solutions
    &&& s.pending ==> {
        &&& s.x < pair_count(s)
        &&& s.y < pair_count(s)
        &&& s.found.len() < s.max_solutions
        &&& s.inits[s.x as int] != s.goals[s.y as int]
    }
    &&& forall|k: int|
        0 <= k < s.found.len() ==> {
            &&& (#[trigger] s.found[k]).2.found
            &&& s.found[k].0 != s.found[k].1
            &&& s.inits.contains(s.found[k].0)
            &&& s.goals.contains(s.found[k].1)
        }
}

pub open spec fn found_view(fs: Seq<(State, State, PlanningResult)>) -> Seq<(SpecState, SpecState, SpecPlanningResult)> {
    fs.map_values(|f: (State, State, PlanningResult)| (f.0@, f.1@, f.2@))
}

pub open spec fn states_view(ss: Seq<State>) -> Seq<SpecState> {
    ss.map_values(|s: State| s@)
}

impl View for AnomalySearch {
    type V = SpecAnomalySearch;

    closed spec fn view(&self) -> SpecAnomalySearch {
        SpecAnomalySearch {
            inits: states_view(self.inits@),
            goals: states_view(self.goals@),
            max_solutions: self.max_solutions,
            x: self.x as nat,
            y: self.y as nat,
            planned: self.planned as nat,
            found: found_view(self.found@),
            pending: self.pending,
        }
    }
}

proof fn lemma_row_step(x: int, n: int, y: int)
    by (nonlinear_arith)
    requires
        0 <= x,
        0 <= y <= n,
    ensures
        x * n + y <= (x + 1) * n,
{
}

proof fn lemma_pair_bound(x: int, n: int, y: int, a: int, b: int)
    by (nonlinear_arith)
    requires
        0 <= x < n,
        0 <= y < n,
        n <= a,
        n <= b,
    ensures
        x * n + y + 1 <= a * b,
{
    assert(x * n + y + 1 <= (n - 1) * n + n);
    assert(n * n <= a * b);
}

impl AnomalySearch {
    /// A pairing of `inits` with `goals` that keeps at most `max_solutions`
    /// solutions, starting at the first pair.
    pub fn new(inits: Vec<State>, goals: Vec<State>, max_solutions: usize) -> (r: AnomalySearch)
        requires
            inits.len() * goals.len() <= usize::MAX,
        ensures
            anomaly_wf(r@),
            r@ == (SpecAnomalySearch {
                inits: states_view(inits@),
                goals: states_view(goals@),
                max_solutions,
                x: 0,
                y: 0,
                planned: 0,
                found: Seq::empty(),
                pending: false,
            }),
    {
        let r = AnomalySearch { inits, goals, max_solutions, x: 0, y: 0, planned: 0, found: Vec::new(), pending: false };
        proof {
            assert(r@.found =~= Seq::<(SpecState, SpecState, SpecPlanningResult)>::empty());
        }
        r
    }

    /// Whether a pair waits for the planner's answer.
    pub fn awaiting_result(&self) -> (r: bool)
        ensures
            r == self@.pending,
    {
        self.pending
    }

    /// Moves to the next pair to plan, as `advance` says. Returns its
    /// initial state and the goal of reaching its goal state, the pair then
    /// pending and counted as planned, or `None` when every pair was visited.
    pub fn next_query(&mut self) -> (r: Option<(State, Predicate)>)
        requires
            anomaly_wf(old(self)@),
            !old(self)@.pending,
        ensures
            anomaly_wf(final(self)@),
            r is None ==> final(self)@ == advance(old(self)@) && advance(old(self)@).x >= pair_count(old(self)@),
            r matches Some(q) ==> {
                let a = advance(old(self)@);
                &&& a.x < pair_count(old(self)@)
                &&& final(self)@ == (SpecAnomalySearch { planned: a.planned + 1, pending: true, ..a })
                &&& q.0@ == a.inits[a.x as int]
                &&& q.1@ == goal_of(a.goals[a.y as int])
            },
    {
        let ghost start = self@;
        let n = if self.inits.len() <= self.goals.len() { self.inits.len() } else { self.goals.len() };
        loop
            invariant
                start == old(self)@,
                anomaly_wf(self@),
                !self@.pending,
                n == pair_count(self@),
                self@.inits == start.inits,
                self@.goals == start.goals,
                self.inits.len() == start.inits.len(),
                self.goals.len() == start.goals.len(),
                advance(self@) == advance(start),
            decreases n - self.x, n - self.y,
        {
            let ghost before = self@;
            if self.x >= n {
                return None;
            }
            if self.y >= n || self.found.len() >= self.max_solutions {
                self.x = self.x + 1;
                self.y = 0;
                proof {
                    lemma_row_step(before.x as int, n as int, before.y as int);
                    assert(self@ == (SpecAnomalySearch { x: before.x + 1, y: 0, ..before }));
                }
                continue;
            }
            proof {
                assert(self@.inits[self.x as int] == self.inits@[self.x as int]@);
                assert(self@.goals[self.y as int] == self.goals@[self.y as int]@);
            }
            if !same_state(&self.inits[self.x], &self.goals[self.y]) {
                proof {
                    lemma_pair_bound(
                        before.x as int,
                        n as int,
                        before.y as int,
                        self.inits.len() as int,
                        self.goals.len() as int,
                    );
                }
                self.planned = self.planned + 1;
                self.pending = true;
                let init = self.inits[self.x].deep_copy();
                let goal = goal_from_state(&self.goals[self.y]);
                proof {
                    assert(self@ == (SpecAnomalySearch { planned: before.planned + 1, pending: true, ..before }));
                }
                return Some((init, goal));
            }
            self.y = self.y + 1;
            proof {
                assert(self@ == (SpecAnomalySearch { y: before.y + 1, ..before }));
            }
        }
    }

    /// Takes the planner's answer for the pending pair, as `after_answer`
    /// says.
    pub fn record_result(&mut self, result: PlanningResult)
        requires
            anomaly_wf(old(self)@),
            old(self)@.pending,
        ensures
            anomaly_wf(final(self)@),
            final(self)@ == after_answer(old(self)@, result@),
    {
        let ghost start = self@;
        proof {
            assert(start.inits.len() == self.inits.len());
        }
        if result.found {
            let init = self.inits[self.x].deep_copy();
            let goal = self.goals[self.y].deep_copy();
            self.found.push((init, goal, result));
            proof {
                assert(found_view(self.found@) =~= start.found.push((start.inits[start.x as int], start.goals[start.y as int], result@)));
                assert(start.inits.contains(start.inits[start.x as int]));
                assert(start.goals.contains(start.goals[start.y as int]));
                assert forall|k: int| 0 <= k < self@.found.len() implies {
                    &&& (#[trigger] self@.found[k]).2.found
                    &&& self@.found[k].0 != self@.found[k].1
                    &&& self@.inits.contains(self@.found[k].0)
                    &&& self@.goals.contains(self@.found[k].1)
                } by {
                    if k < start.found.len() {
                        assert(self@.found[k] == start.found[k]);
                    }
                }
            }
        }
        self.y = self.y + 1;
        self.pending = false;
        proof {
            assert(self@ == after_answer(start, result@));
        }
    }

    /// How many pairs were handed to the planner.
    pub fn planned(&self) -> (r: usize)
        ensures
            r == self@.planned,
    {
        self.planned
    }

    /// How many initial states were sampled.
    pub fn nr_inits(&self) -> (r: usize)
        ensures
            r == self@.inits.len(),
    {
        self.inits.len()
    }

    /// How many goal states were sampled.
    pub fn nr_goals(&self) -> (r: usize)
        ensures
            r == self@.goals.len(),
    {
        self.goals.len()
    }

    /// The solved pairs, with the planner's answers.
    pub fn into_found(self) -> (r: Vec<(State, State, PlanningResult)>)
        ensures
            found_view(r@) == self@.found,
    {
        self.found
    }
}

/// What holds of every consistent pairing: it keeps no more solutions than
/// asked for, each a pair of distinct sampled states that the planner
/// solved, and it has planned at most one query per pair visited.
pub proof fn lemma_anomaly_laws(s: SpecAnomalySearch)
    requires
        anomaly_wf(s),
    ensures
        s.found.len() <= s.max_solutions,
        forall|k: int|
            0 <= k < s.found.len() ==> (#[trigger] s.found[k]).2.found && s.found[k].0 != s.found[k].1
                && s.inits.contains(s.found[k].0) && s.goals.contains(s.found[k].1),
        s.planned <= pair_count(s) * pair_count(s),
{
    let n = pair_count(s);
    if s.pending {
        assert(s.x * n + s.y + 1 <= n * n) by (nonlinear_arith)
            requires
                s.x < n,
                s.y < n,
        ;
    } else {
        assert(s.x * n + s.y <= n * n) by (nonlinear_arith)
            requires
                s.x <= n,
                s.y <= n,
                s.x == n ==> s.y == 0,
        ;
    }
}

/// The product of the domain sizes of the first `k` variables.
pub open spec fn domain_product(vars: Seq<SpecVariable>, k: nat) -> int
    decreases k,
{
    if k == 0 || k > vars.len() {
        1
    } else {
        domain_product(vars, (k - 1) as nat) * vars[k - 1].domain.len()
    }
}

/// The assignments of values of their domains to the first `k` variables
/// of `vars`.
pub open spec fn assignments(vars: Seq<SpecVariable>, k: nat) -> Set<Seq<SpecValue>> {
    Set::new(|v: Seq<SpecValue>| v.len() == k && forall|j: int| 0 <= j < k ==> #[trigger] vars[j].domain.contains(v[j]))
}

/// The assignments to the first `k + 1` variables of `vars` whose last value
/// is among the first `m` of its domain.
spec fn assignments_upto(vars: Seq<SpecVariable>, k: nat, m: nat) -> Set<Seq<SpecValue>> {
    Set::new(
        |v: Seq<SpecValue>|
            v.len() == k + 1 && (forall|j: int| 0 <= j < k ==> #[trigger] vars[j].domain.contains(v[j]))
                && vars[k as int].domain.take(m as int).contains(v[k as int]),
    )
}

proof fn lemma_assignments_upto_count(vars: Seq<SpecVariable>, k: nat, m: nat)
    requires
        k < vars.len(),
        m <= vars[k as int].domain.len(),
        assignments(vars, k).finite(),
    ensures
        assignments_upto(vars, k, m).finite(),
        assignments_upto(vars, k, m).len() <= assignments(vars, k).len() * m,
    decreases m,
{
    let a = assignments(vars, k);
    let d = vars[k as int].domain;
    if m == 0 {
        assert(assignments_upto(vars, k, m) =~= Set::<Seq<SpecValue>>::empty());
    } else {
        lemma_assignments_upto_count(vars, k, (m - 1) as nat);
        let x = d[m - 1];
        let f = |v: Seq<SpecValue>| v.push(x);
        let img = a.map(f);
        vstd::set_lib::lemma_map_size_bound(a, img, f);
        let prev = assignments_upto(vars, k, (m - 1) as nat);
        let cur = assignments_upto(vars, k, m);
        let dm = d.take(m as int);
        let dm1 = d.take((m - 1) as int);
        assert forall|v: Seq<SpecValue>| #[trigger] cur.contains(v) == prev.union(img).contains(v) by {
            if cur.contains(v) {
                let i = choose|i: int| 0 <= i < m && #[trigger] dm[i] == v[k as int];
                if i < m - 1 {
                    assert(dm1[i] == v[k as int]);
                } else {
                    let u = v.take(k as int);
                    assert(v =~= u.push(x));
                    assert forall|j: int| 0 <= j < k implies #[trigger] vars[j].domain.contains(u[j]) by {
                        assert(u[j] == v[j]);
                        assert(vars[j].domain.contains(v[j]));
                    }
                    assert(a.contains(u));
                    assert(img.contains(f(u)));
                }
            }
            if prev.contains(v) {
                let i = choose|i: int| 0 <= i < m - 1 && #[trigger] dm1[i] == v[k as int];
                assert(dm[i] == v[k as int]);
            }
            if img.contains(v) {
                let u = choose|u: Seq<SpecValue>| a.contains(u) && f(u) == v;
                assert(v[k as int] == x);
                assert(dm[m - 1] == x);
                assert forall|j: int| 0 <= j < k implies #[trigger] vars[j].domain.contains(v[j]) by {
                    assert(v[j] == u[j]);
                    assert(vars[j].domain.contains(u[j]));
                }
            }
        }
        assert(cur =~= prev.union(img));
        vstd::set_lib::lemma_len_union(prev, img);
        assert(a.len() * (m - 1) + a.len() == a.len() * m) by (nonlinear_arith);
    }
}

proof fn lemma_assignments_count(vars: Seq<SpecVariable>, k: nat)
    requires
        k <= vars.len(),
    ensures
        assignments(vars, k).finite(),
        assignments(vars, k).len() <= domain_product(vars, k),
    decreases k,
{
    if k == 0 {
        let e = Seq::<SpecValue>::empty();
        assert(assignments(vars, k) =~= set![e]) by {
            assert forall|v: Seq<SpecValue>| #[trigger] assignments(vars, k).contains(v) implies v == e by {
                assert(v =~= e);
            }
        }
        assert(set![e].len() == 1);
    } else {
        let j = (k - 1) as nat;
        let d = vars[j as int].domain;
        lemma_assignments_count(vars, j);
        lemma_assignments_upto_count(vars, j, d.len());
        assert(d.take(d.len() as int) =~= d);
        assert(assignments(vars, k) =~= assignments_upto(vars, j, d.len()));
        let a = assignments(vars, j).len();
        let p = domain_product(vars, j);
        assert(a * d.len() <= p * d.len()) by (nonlinear_arith)
            requires
                a <= p,
        ;
    }
}

/// Distinct states over `vars` number at most the product of the domain
/// sizes.
pub proof fn lemma_sampled_states_bound(vars: Seq<SpecVariable>, ss: Seq<SpecState>)
    requires
        forall|i: int| 0 <= i < ss.len() ==> is_sampled_state(vars, #[trigger] ss[i]),
        forall|i: int, j: int| 0 <= i < j < ss.len() ==> #[trigger] ss[i] != #[trigger] ss[j],
    ensures
        ss.len() <= domain_product(vars, vars.len() as nat),
{
    let n = vars.len() as nat;
    assert(ss.no_duplicates()) by {
        assert forall|i: int, j: int| 0 <= i < ss.len() && 0 <= j < ss.len() && i != j implies ss[i] != ss[j] by {
            if i < j {
                assert(ss[i] != ss[j]);
            } else {
                assert(ss[j] != ss[i]);
            }
        }
    }
    ss.unique_seq_to_set();
    let st = ss.to_set();
    let f = |s: SpecState| Seq::new(s.len(), |i: int| s[i].1);
    assert forall|s: SpecState| #[trigger] st.contains(s) implies exists|v: Seq<SpecValue>|
        drawn_from(vars, v) && s == state_of(vars, v) && f(s) == v by {
        let i = choose|i: int| 0 <= i < ss.len() && ss[i] == s;
        assert(is_sampled_state(vars, ss[i]));
        let v = choose|v: Seq<SpecValue>| #[trigger] drawn_from(vars, v) && s == state_of(vars, v);
        assert(f(s) =~= v);
    }
    assert(vstd::relations::injective_on(f, st)) by {
        assert forall|s1: SpecState, s2: SpecState|
            st.contains(s1) && st.contains(s2) && #[trigger] f(s1) == #[trigger] f(s2) implies s1 == s2 by {
            let v1 = choose|v: Seq<SpecValue>| drawn_from(vars, v) && s1 == state_of(vars, v) && f(s1) == v;
            let v2 = choose|v: Seq<SpecValue>| drawn_from(vars, v) && s2 == state_of(vars, v) && f(s2) == v;
            assert(s1 =~= s2);
        }
    }
    vstd::set_lib::lemma_map_size(st, st.map(f), f);
    assert(st.map(f).subset_of(assignments(vars, n))) by {
        assert forall|v: Seq<SpecValue>| #[trigger] st.map(f).contains(v) implies assignments(vars, n).contains(v) by {
            let s = choose|s: SpecState| st.contains(s) && f(s) == v;
            let w = choose|w: Seq<SpecValue>| drawn_from(vars, w) && s == state_of(vars, w) && f(s) == w;
            assert forall|j: int| 0 <= j < n implies #[trigger] vars[j].domain.contains(v[j]) by {
                assert(vars[j].domain.contains(w[j]));
            }
        }
    }
    lemma_assignments_count(vars, n);
    vstd::set_lib::lemma_len_subset(st.map(f), assignments(vars, n));
}

/// Multiplying the domain sizes in order never exceeds `usize::MAX`.
pub open spec fn product_fits(vars: Seq<SpecVariable>) -> bool {
    forall|k: nat| k <= vars.len() ==> #[trigger] domain_product(vars, k) <= usize::MAX
}

/// The coverage counts of a sample: the number of ordered pairs of distinct
/// states in the state space, and the number of initial and goal pairs
/// sampled less the number of goals. `None` where a step of the
/// computation leaves the range of `usize`.
pub fn coverage_counts(vars: &Vec<Variable>, nr_inits: usize, nr_goals: usize) -> (r: Option<(usize, usize)>)
    ensures
        r is Some <==> {
            let p = domain_product(variables_view(vars@), vars.len() as nat);
            &&& product_fits(variables_view(vars@))
            &&& p * p <= usize::MAX
            &&& nr_inits * nr_goals <= usize::MAX
            &&& nr_inits * nr_goals >= nr_goals
        },
        r matches Some(c) ==> {
            let p = domain_product(variables_view(vars@), vars.len() as nat);
            &&& c.0 == p * p - p
            &&& c.1 == nr_inits * nr_goals - nr_goals
        },
{
    let ghost vv = variables_view(vars@);
    let mut space: usize = 1;
    let mut i: usize = 0;
    while i < vars.len()
        invariant
            i <= vars.len(),
            vv == variables_view(vars@),
            space == domain_product(vv, i as nat),
            forall|k: nat| k <= i ==> #[trigger] domain_product(vv, k) <= usize::MAX,
        decreases vars.len() - i,
    {
        proof {
            assert(vv[i as int].domain.len() == vars@[i as int].domain.len());
        }
        match space.checked_mul(vars[i].domain.len()) {
            Some(next) => {
                proof {
                    assert(domain_product(vv, (i + 1) as nat) == space * vars@[i as int].domain.len());
                }
                space = next;
            },
            None => {
                proof {
                    assert(domain_product(vv, (i + 1) as nat) > usize::MAX);
                    assert(!product_fits(vv));
                }
                return None;
            },
        }
        i = i + 1;
    }
    let max_coverage = match space.checked_mul(space) {
        Some(sq) => {
            proof {
                assert(sq >= space) by (nonlinear_arith)
                    requires
                        sq == space * space,
                ;
            }
            sq - space
        },
        None => {
            return None;
        },
    };
    let coverage = match nr_inits.checked_mul(nr_goals) {
        Some(prod) => {
            if prod < nr_goals {
                return None;
            }
            prod - nr_goals
        },
        None => {
            return None;
        },
    };
    Some((max_coverage, coverage))
}

} // verus!
