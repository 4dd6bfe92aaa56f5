//! Randomly generated transitions, and the search for sets of them that
//! make every valid scenario solvable.
use vstd::prelude::*;
use crate::model::{
    Action, Common, PlanningResult, Predicate, SpecAction, SpecCommon, SpecPlanningResult,
    SpecPredicate, SpecTransition, SpecValue, SpecVariable, State, Transition,
    Value, Variable, contains_string, copy_transitions, lemma_predicates_view, same_values,
    strings_view, transitions_view, values_view, variables_view,
};
use crate::random::{choose_value, seeded_rng};
use rand::rngs::StdRng;
use crate::text::{decimal, decimal_string, indexed_name};

verus! {

/// The guard that holds exactly where each variable has the value at the
/// same position: a conjunction of equalities.
pub open spec fn guard_of(vars: Seq<SpecVariable>, vals: Seq<SpecValue>) -> SpecPredicate {
    SpecPredicate::And(
        Seq::new(
            vars.len(),
            |i: int| SpecPredicate::Eq(SpecCommon::Variable(vars[i]), SpecCommon::Value(vals[i])),
        ),
    )
}

/// The actions that give each variable the value at the same position.
pub open spec fn actions_of(vars: Seq<SpecVariable>, vals: Seq<SpecValue>) -> Seq<SpecAction> {
    Seq::new(
        vars.len(),
        |i: int| SpecAction { var: vars[i], common: SpecCommon::Value(vals[i]) },
    )
}

/// `vals` gives each variable of `vars` a value of its domain.
pub open spec fn drawn_from(vars: Seq<SpecVariable>, vals: Seq<SpecValue>) -> bool {
    &&& vals.len() == vars.len()
    &&& forall|i: int| 0 <= i < vars.len() ==> #[trigger] vars[i].domain.contains(vals[i])
}

/// Two transitions do the same thing: they have the same guard and the
/// same actions, whatever their names.
pub open spec fn same_step(a: SpecTransition, b: SpecTransition) -> bool {
    a.guard == b.guard && a.actions == b.actions
}

/// `t` moves the variables of `vars` from one assignment of domain values
/// to another, different one.
pub open spec fn is_random_step(vars: Seq<SpecVariable>, t: SpecTransition) -> bool {
    exists|g: Seq<SpecValue>, a: Seq<SpecValue>|
        #![trigger guard_of(vars, g), actions_of(vars, a)]
        drawn_from(vars, g) && drawn_from(vars, a) && g != a && t.guard == guard_of(vars, g)
            && t.actions == actions_of(vars, a)
}

/// Every variable has at least one value to draw.
pub open spec fn domains_nonempty(vars: Seq<Variable>) -> bool {
    forall|i: int| 0 <= i < vars.len() ==> #[trigger] vars[i].domain@.len() > 0
}

/// The name of the `k`-th transition generated under `namespace`.
pub open spec fn generated_name(namespace: Seq<char>, k: nat) -> Seq<char> {
    namespace + seq!['_'] + decimal(k)
}

proof fn lemma_guard_actions_injective(
    vars: Seq<SpecVariable>,
    g1: Seq<SpecValue>,
    a1: Seq<SpecValue>,
    g2: Seq<SpecValue>,
    a2: Seq<SpecValue>,
)
    requires
        g1.len() == vars.len(),
        a1.len() == vars.len(),
        g2.len() == vars.len(),
        a2.len() == vars.len(),
        guard_of(vars, g1) == guard_of(vars, g2),
        actions_of(vars, a1) == actions_of(vars, a2),
    ensures
        g1 == g2,
        a1 == a2,
{
    assert forall|i: int| 0 <= i < vars.len() implies g1[i] == g2[i] by {
        let s1 = guard_of(vars, g1)->And_0;
        let s2 = guard_of(vars, g2)->And_0;
        assert(s1[i] == s2[i]);
    }
    assert forall|i: int| 0 <= i < vars.len() implies a1[i] == a2[i] by {
        assert(actions_of(vars, a1)[i] == actions_of(vars, a2)[i]);
        assert(actions_of(vars, a1)[i].common->Value_0 == a1[i]);
        assert(actions_of(vars, a2)[i].common->Value_0 == a2[i]);
    }
    assert(g1 =~= g2);
    assert(a1 =~= a2);
}

/// Draws a value of each variable's domain with `rng`.
fn draw_values(vars: &Vec<Variable>, rng: &mut StdRng) -> (r: Vec<Value>)
    requires
        domains_nonempty(vars@),
    ensures
        drawn_from(variables_view(vars@), values_view(r@)),
{
    let mut r: Vec<Value> = Vec::new();
    let mut i: usize = 0;
    while i < vars.len()
        invariant
            i <= vars.len(),
            domains_nonempty(vars@),
            r.len() == i,
            forall|j: int| 0 <= j < i ==> values_view(vars@[j].domain@).contains(#[trigger] r@[j]@),
        decreases vars.len() - i,
    {
        let chosen = choose_value(&vars[i].domain, rng);
        match chosen {
            Some(v) => {
                let c = v.deep_copy();
                proof {
                    let k = choose|k: int| 0 <= k < vars@[i as int].domain@.len() && vars@[i as int].domain@[k] == *v;
                    assert(values_view(vars@[i as int].domain@)[k] == c@);
                }
                r.push(c);
            },
            None => {
                proof {
                    assert(vars@[i as int].domain@.len() > 0);
                }
            },
        }
        i = i + 1;
    }
    proof {
        let vv = variables_view(vars@);
        let rv = values_view(r@);
        assert forall|j: int| 0 <= j < vv.len() implies #[trigger] vv[j].domain.contains(rv[j]) by {
            assert(vv[j].domain == values_view(vars@[j].domain@));
        }
    }
    r
}

/// The transition named `name` that moves `vars` from `guard_vals` to `action_vals`.
fn build_transition(name: String, vars: &Vec<Variable>, guard_vals: &Vec<Value>, action_vals: &Vec<Value>) -> (t: Transition)
    requires
        guard_vals.len() == vars.len(),
        action_vals.len() == vars.len(),
    ensures
        t@ == (SpecTransition {
            name: name@,
            guard: guard_of(variables_view(vars@), values_view(guard_vals@)),
            actions: actions_of(variables_view(vars@), values_view(action_vals@)),
        }),
{
    let ghost vv = variables_view(vars@);
    let ghost gv = values_view(guard_vals@);
    let ghost av = values_view(action_vals@);
    let mut eqs: Vec<Predicate> = Vec::new();
    let mut actions: Vec<Action> = Vec::new();
    let mut i: usize = 0;
    while i < vars.len()
        invariant
            i <= vars.len(),
            guard_vals.len() == vars.len(),
            action_vals.len() == vars.len(),
            vv == variables_view(vars@),
            gv == values_view(guard_vals@),
            av == values_view(action_vals@),
            eqs.len() == i,
            actions.len() == i,
            forall|j: int|
                0 <= j < i ==> (#[trigger] eqs@[j])@ == SpecPredicate::Eq(
                    SpecCommon::Variable(vv[j]),
                    SpecCommon::Value(gv[j]),
                ),
            forall|j: int|
                0 <= j < i ==> (#[trigger] actions@[j])@ == (SpecAction {
                    var: vv[j],
                    common: SpecCommon::Value(av[j]),
                }),
        decreases vars.len() - i,
    {
        let eq = Predicate::Eq(
            Common::Variable(vars[i].deep_copy()),
            Common::Value(guard_vals[i].deep_copy()),
        );
        eqs.push(eq);
        let act = Action {
            var: vars[i].deep_copy(),
            common: Common::Value(action_vals[i].deep_copy()),
        };
        actions.push(act);
        i = i + 1;
    }
    proof {
        lemma_predicates_view(&eqs);
        assert(crate::model::predicates_view(&eqs) =~= guard_of(vv, gv)->And_0);
        assert(crate::model::actions_view(actions@) =~= actions_of(vv, av));
    }
    Transition { name, guard: Predicate::And(eqs), actions }
}

/// The transition the `k`-th kept draw of `guard_vals` and `action_vals`
/// gives under `namespace`.
pub open spec fn drawn_transition(
    namespace: Seq<char>,
    vars: Seq<SpecVariable>,
    k: nat,
    guard_vals: Seq<SpecValue>,
    action_vals: Seq<SpecValue>,
) -> SpecTransition {
    SpecTransition {
        name: generated_name(namespace, k),
        guard: guard_of(vars, guard_vals),
        actions: actions_of(vars, action_vals),
    }
}

/// Some transition of `ts` does the same as `t`.
pub open spec fn repeats_step(ts: Seq<Transition>, t: SpecTransition) -> bool {
    exists|k: int| 0 <= k < ts.len() && same_step((#[trigger] ts[k])@, t)
}

/// Takes one draw: the transition that moves `vars` from `guard_vals` to
/// `action_vals`, named after the next position under `namespace`, is added
/// to `generated` unless the two assignments are equal or a transition of
/// `generated` does the same. Returns whether it was added.
pub fn add_drawn_transition(
    namespace: &str,
    vars: &Vec<Variable>,
    generated: &mut Vec<Transition>,
    guard_vals: &Vec<Value>,
    action_vals: &Vec<Value>,
) -> (added: bool)
    requires
        guard_vals.len() == vars.len(),
        action_vals.len() == vars.len(),
        old(generated).len() < usize::MAX,
    ensures
        added == (values_view(guard_vals@) != values_view(action_vals@) && !repeats_step(
            old(generated)@,
            drawn_transition(
                namespace@,
                variables_view(vars@),
                (old(generated).len() + 1) as nat,
                values_view(guard_vals@),
                values_view(action_vals@),
            ),
        )),
        added ==> transitions_view(final(generated)@) == transitions_view(old(generated)@).push(
            drawn_transition(
                namespace@,
                variables_view(vars@),
                (old(generated).len() + 1) as nat,
                values_view(guard_vals@),
                values_view(action_vals@),
            ),
        ),
        !added ==> transitions_view(final(generated)@) == transitions_view(old(generated)@),
{
    let ghost t = drawn_transition(
        namespace@,
        variables_view(vars@),
        (generated.len() + 1) as nat,
        values_view(guard_vals@),
        values_view(action_vals@),
    );
    if same_values(guard_vals, action_vals) {
        return false;
    }
    let name = indexed_name(namespace, generated.len() + 1);
    let new_trans = build_transition(name, vars, guard_vals, action_vals);
    let mut k: usize = 0;
    while k < generated.len()
        invariant
            k <= generated.len(),
            generated@ == old(generated)@,
            new_trans@ == t,
            t == drawn_transition(
                namespace@,
                variables_view(vars@),
                (old(generated).len() + 1) as nat,
                values_view(guard_vals@),
                values_view(action_vals@),
            ),
            forall|j: int| 0 <= j < k ==> !same_step((#[trigger] generated@[j])@, t),
        decreases generated.len() - k,
    {
        if generated[k].same_step(&new_trans) {
            proof {
                assert(same_step(old(generated)@[k as int]@, t));
                assert(repeats_step(old(generated)@, t));
            }
            return false;
        }
        k = k + 1;
    }
    let ghost before = generated@;
    generated.push(new_trans);
    proof {
        assert(transitions_view(generated@) =~= transitions_view(before).push(t));
    }
    true
}

/// Some transition of `ts` does the same as `t`.
pub open spec fn repeats_spec_step(ts: Seq<SpecTransition>, t: SpecTransition) -> bool {
    exists|k: int| 0 <= k < ts.len() && same_step(#[trigger] ts[k], t)
}

/// The transitions kept from the draws `draws` of guard and action values,
/// in order: a draw is kept when its assignments differ and no kept
/// transition does the same, under the name of its position.
pub open spec fn kept_draws(
    namespace: Seq<char>,
    vars: Seq<SpecVariable>,
    draws: Seq<(Seq<SpecValue>, Seq<SpecValue>)>,
) -> Seq<SpecTransition>
    decreases draws.len(),
{
    if draws.len() == 0 {
        Seq::empty()
    } else {
        let before = kept_draws(namespace, vars, draws.drop_last());
        let d = draws.last();
        let t = drawn_transition(namespace, vars, (before.len() + 1) as nat, d.0, d.1);
        if d.0 != d.1 && !repeats_spec_step(before, t) {
            before.push(t)
        } else {
            before
        }
    }
}

/// A drawn transition repeats a kept one only when some kept transition has
/// both its guard and its actions: one that shares a guard with kept
/// transitions but moves elsewhere is no repeat.
pub proof fn lemma_repeat_needs_guard_and_actions(ts: Seq<Transition>, t: SpecTransition)
    ensures
        repeats_step(ts, t) <==> exists|k: int|
            0 <= k < ts.len() && (#[trigger] ts[k])@.guard == t.guard && ts[k]@.actions == t.actions,
{
}

/// Two draws from the same assignment to two different other assignments
/// are both kept, in order, as the first and second transition.
pub proof fn lemma_same_guard_other_actions_kept(
    namespace: Seq<char>,
    vars: Seq<SpecVariable>,
    g: Seq<SpecValue>,
    a1: Seq<SpecValue>,
    a2: Seq<SpecValue>,
)
    requires
        g.len() == vars.len(),
        a1.len() == vars.len(),
        a2.len() == vars.len(),
        g != a1,
        g != a2,
        a1 != a2,
    ensures
        kept_draws(namespace, vars, seq![(g, a1), (g, a2)]) == seq![
            drawn_transition(namespace, vars, 1, g, a1),
            drawn_transition(namespace, vars, 2, g, a2),
        ],
{
    let draws = seq![(g, a1), (g, a2)];
    let one = draws.drop_last();
    assert(one.drop_last() =~= Seq::<(Seq<SpecValue>, Seq<SpecValue>)>::empty());
    assert(one.last() == (g, a1));
    assert(draws.last() == (g, a2));
    let t1 = drawn_transition(namespace, vars, 1, g, a1);
    assert(!repeats_spec_step(Seq::<SpecTransition>::empty(), t1));
    let before = seq![t1];
    let none = Seq::<(Seq<SpecValue>, Seq<SpecValue>)>::empty();
    assert(one.drop_last() == none);
    assert(kept_draws(namespace, vars, none) =~= Seq::<SpecTransition>::empty());
    assert(kept_draws(namespace, vars, one) =~= Seq::<SpecTransition>::empty().push(t1));
    assert(kept_draws(namespace, vars, one) =~= before);
    let t2 = drawn_transition(namespace, vars, 2, g, a2);
    if repeats_spec_step(before, t2) {
        assert(same_step(before[0], t2));
        lemma_guard_actions_injective(vars, g, a1, g, a2);
    }
    assert(kept_draws(namespace, vars, draws) =~= before.push(t2));
}

/// `result` is what generation gives for the draws `draws`: when the random
/// source could not be seeded (`source_failed`) no draw was made; each draw
/// takes a value of every domain twice; the result is the transitions kept
/// from the draws; a draw was made only while fewer than `how_many`
/// transitions were kept; and drawing stopped after `max_tries + 1` draws, on
/// reaching `how_many` transitions, or at once on a failed source.
pub open spec fn generation_run(
    namespace: Seq<char>,
    vars: Seq<SpecVariable>,
    how_many: nat,
    max_tries: nat,
    source_failed: bool,
    draws: Seq<(Seq<SpecValue>, Seq<SpecValue>)>,
    result: Seq<SpecTransition>,
) -> bool {
    &&& source_failed ==> draws.len() == 0
    &&& draws.len() <= max_tries + 1
    &&& forall|i: int| 0 <= i < draws.len() ==> drawn_from(vars, (#[trigger] draws[i]).0) && drawn_from(vars, draws[i].1)
    &&& result == kept_draws(namespace, vars, draws)
    &&& forall|p: int| 0 <= p < draws.len() ==> #[trigger] kept_draws(namespace, vars, draws.take(p)).len() < how_many
    &&& (source_failed || draws.len() == max_tries + 1 || result.len() == how_many)
}

/// Generates up to `how_many` transitions over `vars`, each of which
/// requires a randomly drawn value of every variable and sets every variable
/// to another randomly drawn value, the two assignments differing. A draw
/// whose transition does the same as one generated before is dropped; at
/// most `max_tries + 1` draws are made. The `k`-th transition kept is named
/// `namespace`, an underscore and `k`, counting from one. The draws come from
/// a generator seeded by the operating system; where it cannot be seeded, no
/// draw is made and the result is empty.
pub fn generate_random_transitions(namespace: &str, vars: &Vec<Variable>, how_many: usize, max_tries: usize) -> (r: Vec<Transition>)
    requires
        how_many > 0 ==> domains_nonempty(vars@),
    ensures
        r.len() <= how_many,
        r.len() <= max_tries + 1,
        forall|k: int| 0 <= k < r.len() ==> (#[trigger] r@[k])@.name == generated_name(namespace@, (k + 1) as nat),
        forall|k: int| 0 <= k < r.len() ==> is_random_step(variables_view(vars@), (#[trigger] r@[k])@),
        forall|k1: int, k2: int|
            0 <= k1 < k2 < r.len() ==> !same_step((#[trigger] r@[k1])@, (#[trigger] r@[k2])@),
        exists|source_failed: bool, draws: Seq<(Seq<SpecValue>, Seq<SpecValue>)>|
            #[trigger] generation_run(
                namespace@,
                variables_view(vars@),
                how_many as nat,
                max_tries as nat,
                source_failed,
                draws,
                transitions_view(r@),
            ),
{
    let ghost vv = variables_view(vars@);
    let mut generated: Vec<Transition> = Vec::new();
    let mut rng = match seeded_rng() {
        Some(g) => g,
        None => {
            proof {
                let none: Seq<(Seq<SpecValue>, Seq<SpecValue>)> = Seq::empty();
                assert(transitions_view(generated@) =~= kept_draws(namespace@, vv, none));
                assert(generation_run(namespace@, vv, how_many as nat, max_tries as nat, true, none, transitions_view(generated@)));
            }
            return generated;
        },
    };
    let mut tries_left: usize = max_tries;
    let mut out_of_tries = false;
    let ghost mut draws: Seq<(Seq<SpecValue>, Seq<SpecValue>)> = Seq::empty();
    proof {
        assert(transitions_view(generated@) =~= kept_draws(namespace@, vv, draws));
    }
    while generated.len() < how_many && !out_of_tries
        invariant
            how_many > 0 ==> domains_nonempty(vars@),
            vv == variables_view(vars@),
            generated.len() <= how_many,
            tries_left <= max_tries,
            generated.len() <= if out_of_tries { max_tries + 1 } else { max_tries - tries_left },
            forall|k: int|
                0 <= k < generated.len() ==> (#[trigger] generated@[k])@.name == generated_name(
                    namespace@,
                    (k + 1) as nat,
                ),
            forall|k: int| 0 <= k < generated.len() ==> is_random_step(vv, (#[trigger] generated@[k])@),
            forall|k1: int, k2: int|
                0 <= k1 < k2 < generated.len() ==> !same_step((#[trigger] generated@[k1])@, (#[trigger] generated@[k2])@),
            draws.len() == if out_of_tries { max_tries + 1 } else { max_tries - tries_left },
            forall|i: int| 0 <= i < draws.len() ==> drawn_from(vv, (#[trigger] draws[i]).0) && drawn_from(vv, draws[i].1),
            transitions_view(generated@) == kept_draws(namespace@, vv, draws),
            forall|p: int| 0 <= p < draws.len() ==> #[trigger] kept_draws(namespace@, vv, draws.take(p)).len() < how_many,
        decreases if out_of_tries { 0 } else { tries_left + 1 },
    {
        if tries_left == 0 {
            out_of_tries = true;
        } else {
            tries_left = tries_left - 1;
        }
        let guard_vals = draw_values(vars, &mut rng);
        let action_vals = draw_values(vars, &mut rng);
        let ghost before = generated@;
        let ghost old_draws = draws;
        let added = add_drawn_transition(namespace, vars, &mut generated, &guard_vals, &action_vals);
        proof {
            let gv = values_view(guard_vals@);
            let av = values_view(action_vals@);
            let t = drawn_transition(namespace@, vv, (before.len() + 1) as nat, gv, av);
            draws = draws.push((gv, av));
            assert(draws.drop_last() =~= old_draws);
            assert(transitions_view(before).len() == before.len());
            assert(repeats_step(before, t) == repeats_spec_step(transitions_view(before), t)) by {
                if repeats_step(before, t) {
                    let k = choose|k: int| 0 <= k < before.len() && same_step((#[trigger] before[k])@, t);
                    assert(transitions_view(before)[k] == before[k]@);
                }
                if repeats_spec_step(transitions_view(before), t) {
                    let k = choose|k: int| 0 <= k < transitions_view(before).len() && same_step(
                        #[trigger] transitions_view(before)[k],
                        t,
                    );
                    assert(transitions_view(before)[k] == before[k]@);
                }
            }
            assert(transitions_view(generated@) == kept_draws(namespace@, vv, draws));
            assert forall|p: int| 0 <= p < draws.len() implies #[trigger] kept_draws(namespace@, vv, draws.take(p)).len()
                < how_many by {
                if p < old_draws.len() {
                    assert(draws.take(p) =~= old_draws.take(p));
                } else {
                    assert(draws.take(p) =~= old_draws);
                }
            }
            if added {
                assert(generated@.len() == before.len() + 1) by {
                    assert(transitions_view(generated@).len() == transitions_view(before).len() + 1);
                }
                assert forall|k: int| 0 <= k < generated.len() implies (#[trigger] generated@[k])@ == if k < before.len() {
                    before[k]@
                } else {
                    t
                } by {
                    assert(transitions_view(generated@)[k] == generated@[k]@);
                    if k < before.len() {
                        assert(transitions_view(before)[k] == before[k]@);
                    }
                }
                assert(is_random_step(vv, t)) by {
                    assert(guard_of(vv, gv) == t.guard);
                    assert(actions_of(vv, av) == t.actions);
                }
            } else {
                assert(generated@.len() == before.len()) by {
                    assert(transitions_view(generated@).len() == transitions_view(before).len());
                }
                assert forall|k: int| 0 <= k < generated.len() implies (#[trigger] generated@[k])@ == before[k]@ by {
                    assert(transitions_view(generated@)[k] == generated@[k]@);
                    assert(transitions_view(before)[k] == before[k]@);
                }
            }
        }
    }
    proof {
        assert(generation_run(namespace@, vv, how_many as nat, max_tries as nat, false, draws, transitions_view(generated@)));
    }
    generated
}

/// A scenario together with the planner's answer for it, and a grade
/// (lower is better).
#[derive(Debug)]
pub struct HintFrame {
    pub init: State,
    pub goal: Predicate,
    pub result: PlanningResult,
    pub grade: usize,
}

pub struct SpecHintFrame {
    pub init: Seq<(SpecVariable, SpecValue)>,
    pub goal: SpecPredicate,
    pub result: SpecPlanningResult,
    pub grade: usize,
}

impl View for HintFrame {
    type V = SpecHintFrame;

    open spec fn view(&self) -> SpecHintFrame {
        SpecHintFrame { init: self.init@, goal: self.goal@, result: self.result@, grade: self.grade }
    }
}

impl HintFrame {
    pub fn deep_copy(&self) -> (r: HintFrame)
        ensures
            r@ == self@,
    {
        HintFrame {
            init: self.init.deep_copy(),
            goal: self.goal.deep_copy(),
            result: self.result.deep_copy(),
            grade: self.grade,
        }
    }
}

/// A set of generated transitions, with a grade (lower is better).
#[derive(Debug)]
pub struct TransitionFrame {
    pub trans: Vec<Transition>,
    pub grade: usize,
}

pub struct SpecTransitionFrame {
    pub trans: Seq<SpecTransition>,
    pub grade: usize,
}

impl View for TransitionFrame {
    type V = SpecTransitionFrame;

    open spec fn view(&self) -> SpecTransitionFrame {
        SpecTransitionFrame { trans: transitions_view(self.trans@), grade: self.grade }
    }
}

/// The outcome of a search: the hint frames and the transition sets found.
#[derive(Debug)]
pub struct GeneratedHint {
    pub frames: Vec<HintFrame>,
    pub trans: Vec<TransitionFrame>,
}

pub open spec fn hint_frames_view(fs: Seq<HintFrame>) -> Seq<SpecHintFrame> {
    fs.map_values(|f: HintFrame| f@)
}

pub open spec fn transition_frames_view(fs: Seq<TransitionFrame>) -> Seq<SpecTransitionFrame> {
    fs.map_values(|f: TransitionFrame| f@)
}

/// The view of a list of valid scenarios: initial states with goals.
pub open spec fn combinations_view(cs: Seq<(State, Predicate)>) -> Seq<(Seq<(SpecVariable, SpecValue)>, SpecPredicate)> {
    cs.map_values(|c: (State, Predicate)| (c.0@, c.1@))
}

pub open spec fn results_view(rs: Seq<PlanningResult>) -> Seq<SpecPlanningResult> {
    rs.map_values(|r: PlanningResult| r@)
}

/// Every planner answer reached its goal.
pub open spec fn all_found(rs: Seq<SpecPlanningResult>) -> bool {
    forall|i: int| 0 <= i < rs.len() ==> #[trigger] rs[i].found
}

/// The plan uses every transition of `gts`.
pub open spec fn uses_all(plan: Seq<Seq<char>>, gts: Seq<SpecTransition>) -> bool {
    forall|k: int| 0 <= k < gts.len() ==> plan.contains(#[trigger] gts[k].name)
}

/// Two transition lists are equal up to the names of their transitions.
pub open spec fn same_steps(a: Seq<SpecTransition>, b: Seq<SpecTransition>) -> bool {
    a.len() == b.len() && forall|i: int| 0 <= i < a.len() ==> same_step(#[trigger] a[i], b[i])
}

/// The frames, with grade zero, of the first `n` scenarios whose plan uses
/// every transition of `gts`, in scenario order.
pub open spec fn frames_using(
    combos: Seq<(Seq<(SpecVariable, SpecValue)>, SpecPredicate)>,
    results: Seq<SpecPlanningResult>,
    gts: Seq<SpecTransition>,
    n: nat,
) -> Seq<SpecHintFrame>
    decreases n,
{
    if n == 0 {
        Seq::empty()
    } else {
        let before = frames_using(combos, results, gts, (n - 1) as nat);
        let i = n - 1;
        if uses_all(results[i].plan, gts) {
            before.push(SpecHintFrame { init: combos[i].0, goal: combos[i].1, result: results[i], grade: 0 })
        } else {
            before
        }
    }
}

/// Whether `plan` uses every transition of `gts`.
fn plan_uses_all(plan: &Vec<String>, gts: &Vec<Transition>) -> (r: bool)
    ensures
        r == uses_all(strings_view(plan@), transitions_view(gts@)),
{
    let mut k: usize = 0;
    while k < gts.len()
        invariant
            k <= gts.len(),
            forall|j: int| 0 <= j < k ==> strings_view(plan@).contains(#[trigger] gts@[j]@.name),
        decreases gts.len() - k,
    {
        if !contains_string(plan, &gts[k].name) {
            proof {
                assert(transitions_view(gts@)[k as int].name == gts@[k as int]@.name);
            }
            return false;
        }
        k = k + 1;
    }
    proof {
        let gv = transitions_view(gts@);
        assert forall|j: int| 0 <= j < gv.len() implies strings_view(plan@).contains(#[trigger] gv[j].name) by {
            assert(gv[j].name == gts@[j]@.name);
        }
    }
    true
}

/// Whether some list in `tried` equals `gts` up to names.
fn tried_before(tried: &Vec<Vec<Transition>>, gts: &Vec<Transition>) -> (r: bool)
    ensures
        r == exists|k: int|
            0 <= k < tried.len() && same_steps(transitions_view((#[trigger] tried@[k])@), transitions_view(gts@)),
{
    let mut k: usize = 0;
    while k < tried.len()
        invariant
            k <= tried.len(),
            forall|j: int|
                0 <= j < k ==> !same_steps(transitions_view((#[trigger] tried@[j])@), transitions_view(gts@)),
        decreases tried.len() - k,
    {
        let cand = &tried[k];
        let mut same = cand.len() == gts.len();
        let mut i: usize = 0;
        while same && i < gts.len()
            invariant
                cand == &tried@[k as int],
                same ==> cand.len() == gts.len(),
                i <= gts.len(),
                same ==> forall|j: int| 0 <= j < i ==> same_step(cand@[j]@, gts@[j]@),
                !same ==> !same_steps(transitions_view(cand@), transitions_view(gts@)),
            decreases gts.len() - i,
        {
            if !cand[i].same_step(&gts[i]) {
                same = false;
                proof {
                    assert(!same_step(transitions_view(cand@)[i as int], transitions_view(gts@)[i as int]));
                }
            }
            i = i + 1;
        }
        if same {
            proof {
                assert forall|j: int| 0 <= j < cand.len() implies same_step(
                    #[trigger] transitions_view(cand@)[j],
                    transitions_view(gts@)[j],
                ) by {
                    assert(same_step(cand@[j]@, gts@[j]@));
                }
            }
            return true;
        }
        k = k + 1;
    }
    false
}

/// `model` followed by `extra`.
fn concat_transitions(model: &Vec<Transition>, extra: &Vec<Transition>) -> (r: Vec<Transition>)
    ensures
        transitions_view(r@) == transitions_view(model@) + transitions_view(extra@),
{
    let mut r = copy_transitions(model);
    let mut i: usize = 0;
    while i < extra.len()
        invariant
            i <= extra.len(),
            transitions_view(r@) == transitions_view(model@) + transitions_view(extra@).take(i as int),
        decreases extra.len() - i,
    {
        let ghost before = r@;
        r.push(extra[i].deep_copy());
        proof {
            assert(transitions_view(r@) =~= transitions_view(before).push(extra@[i as int]@));
            assert(transitions_view(extra@).take(i + 1) =~= transitions_view(extra@).take(i as int).push(
                extra@[i as int]@,
            ));
        }
        i = i + 1;
    }
    proof {
        assert(transitions_view(extra@).take(extra.len() as int) =~= transitions_view(extra@));
    }
    r
}

/// A set equal to `gts` up to names was tried before.
pub open spec fn tried_set(s: SpecSearch, gts: Seq<SpecTransition>) -> bool {
    exists|k: int| 0 <= k < s.tried.len() && same_steps(#[trigger] s.tried[k], gts)
}

/// The state after one try of the current round: the try is counted, and
/// a set not tried before becomes pending and is recorded as tried.
pub open spec fn after_offer(s: SpecSearch, gts: Seq<SpecTransition>) -> SpecSearch {
    let t = if s.tries_left == 0 {
        SpecSearch { out_of_tries: true, ..s }
    } else {
        SpecSearch { tries_left: (s.tries_left - 1) as usize, ..s }
    };
    if tried_set(s, gts) {
        t
    } else {
        SpecSearch { tried: s.tried.push(gts), pending: Some(gts), ..t }
    }
}

/// The state after the current round ended: the next round, of one more
/// transition per set, with no success and all tries, or the end.
pub open spec fn after_round(s: SpecSearch) -> SpecSearch {
    if s.nr_trans < s.max_transitions {
        SpecSearch {
            nr_trans: (s.nr_trans + 1) as usize,
            solved: 0,
            tries_left: s.max_tries,
            out_of_tries: false,
            in_round: true,
            ..s
        }
    } else {
        SpecSearch { in_round: false, ..s }
    }
}

/// A set will still be drawn: the current round may draw, or a further
/// round, which asks for at least one success, is to start.
pub open spec fn may_draw(s: SpecSearch) -> bool {
    round_open(s) || (s.nr_trans < s.max_transitions && s.max_solutions > 0)
}

/// What a set drawn in the state `s` is: at most as many transitions as
/// the round's number, each a random step over `vars`, no two doing the
/// same, named after the round, the success count and their position.
pub open spec fn drawn_set(s: SpecSearch, vars: Seq<SpecVariable>, gts: Seq<SpecTransition>) -> bool {
    &&& gts.len() <= s.nr_trans
    &&& forall|k: int|
        0 <= k < gts.len() ==> (#[trigger] gts[k]).name == generated_name(
            decimal(s.nr_trans as nat) + seq!['_'] + decimal((s.solved + 1) as nat),
            (k + 1) as nat,
        )
    &&& forall|k: int| 0 <= k < gts.len() ==> is_random_step(vars, #[trigger] gts[k])
    &&& forall|k1: int, k2: int| 0 <= k1 < k2 < gts.len() ==> !same_step(#[trigger] gts[k1], #[trigger] gts[k2])
}

/// One step of the search that hands out no candidate: while the round is
/// open, a drawn set (`Some`) that was tried before, up to names, is dropped
/// and its try counted; once the round may draw no further set, the round
/// ends (`None`).
pub open spec fn passing_step(
    s: SpecSearch,
    step: Option<Seq<SpecTransition>>,
    t: SpecSearch,
    vars: Seq<SpecVariable>,
) -> bool {
    match step {
        Some(gts) => round_open(s) && drawn_set(s, vars, gts) && tried_set(s, gts) && t == after_offer(s, gts),
        None => !round_open(s) && t == after_round(s),
    }
}

/// The search goes from the first of `states` to the last by `steps`, one
/// step between each two states, none handing out a candidate.
pub open spec fn passing_run(
    states: Seq<SpecSearch>,
    steps: Seq<Option<Seq<SpecTransition>>>,
    vars: Seq<SpecVariable>,
) -> bool {
    &&& states.len() == steps.len() + 1
    &&& forall|i: int| 0 <= i < steps.len() ==> passing_step(states[i], #[trigger] steps[i], states[i + 1], vars)
}

/// What a drawn candidate is: the model extended by a set not tried
/// before, now pending and recorded as tried; the set has at most as many
/// transitions as the round's number, each a random step over `vars`, no two
/// doing the same, named after the round, the success count and their
/// position; and the search has progressed.
pub open spec fn candidate_drawn(
    old: SpecSearch,
    new: SpecSearch,
    model: Seq<SpecTransition>,
    vars: Seq<SpecVariable>,
    extended: Seq<SpecTransition>,
) -> bool {
    let gts = new.pending->0;
    &&& new.pending is Some
    &&& extended == model + gts
    &&& new.tried == old.tried.push(gts)
    &&& gts.len() <= new.nr_trans
    &&& forall|k: int|
        0 <= k < gts.len() ==> (#[trigger] gts[k]).name == generated_name(
            decimal(new.nr_trans as nat) + seq!['_'] + decimal((new.solved + 1) as nat),
            (k + 1) as nat,
        )
    &&& forall|k: int| 0 <= k < gts.len() ==> is_random_step(vars, #[trigger] gts[k])
    &&& forall|k1: int, k2: int| 0 <= k1 < k2 < gts.len() ==> !same_step(#[trigger] gts[k1], #[trigger] gts[k2])
    &&& measure_lt(measure(new), measure(old))
}

/// The search for random transition sets that make every valid scenario
/// solvable. Rounds go up from one generated transition to the maximum;
/// each round draws sets until enough of them worked or its tries ran out.
/// The planner runs outside: `next_candidate` hands out the model extended
/// by the next set to try, `record_results` takes the planner's answers for
/// the scenarios under that model.
pub struct GeneratedSearch {
    max_transitions: usize,
    max_solutions: usize,
    max_tries: usize,
    kill_search: bool,
    nr_trans: usize,
    solved: usize,
    tries_left: usize,
    out_of_tries: bool,
    in_round: bool,
    tried: Vec<Vec<Transition>>,
    pending: Option<Vec<Transition>>,
    frames: Vec<HintFrame>,
    trans: Vec<TransitionFrame>,
}

pub struct SpecSearch {
    /// The size of the last round; lowered to the current round when a set
    /// works and the search is to stop after that round.
    pub max_transitions: usize,
    pub max_solutions: usize,
    pub max_tries: usize,
    pub kill_search: bool,
    /// The current round: the number of transitions generated per set.
    pub nr_trans: usize,
    /// The sets that worked in the current round.
    pub solved: usize,
    /// The tries of the current round left after the next one.
    pub tries_left: usize,
    pub out_of_tries: bool,
    pub in_round: bool,
    pub tried: Seq<Seq<SpecTransition>>,
    pub pending: Option<Seq<SpecTransition>>,
    pub frames: Seq<SpecHintFrame>,
    pub trans: Seq<SpecTransitionFrame>,
}

/// The current round may draw another set.
pub open spec fn round_open(s: SpecSearch) -> bool {
    s.in_round && s.solved < s.max_solutions && !s.out_of_tries
}

/// No further set will be drawn.
pub open spec fn finished(s: SpecSearch) -> bool {
    !round_open(s) && s.nr_trans >= s.max_transitions
}

/// The search's progress measure, compared lexicographically.
pub open spec fn measure(s: SpecSearch) -> (int, int, int) {
    (
        s.max_transitions - s.nr_trans,
        if round_open(s) { 1int } else { 0int },
        if s.out_of_tries { 0int } else { s.tries_left + 1 },
    )
}

pub open spec fn measure_lt(a: (int, int, int), b: (int, int, int)) -> bool {
    a.0 < b.0 || (a.0 == b.0 && (a.1 < b.1 || (a.1 == b.1 && a.2 < b.2)))
}

pub open spec fn measure_le(a: (int, int, int), b: (int, int, int)) -> bool {
    measure_lt(a, b) || a == b
}

/// The state after the planner's answers `results` for the scenarios
/// `combos` under the model extended by the pending set: if every scenario
/// was solved by a set of at least one transition, the set is kept with the
/// frames whose plan uses all of it, the round counts one more success, and
/// a killing search ends after this round. An empty set leaves the model as
/// it was, whose answers, given to `new`, were not all found; it is never
/// kept.
pub open spec fn after_results(
    s: SpecSearch,
    combos: Seq<(Seq<(SpecVariable, SpecValue)>, SpecPredicate)>,
    results: Seq<SpecPlanningResult>,
) -> SpecSearch {
    let gts = s.pending->0;
    if all_found(results) && gts.len() > 0 {
        SpecSearch {
            max_transitions: if s.kill_search { s.nr_trans } else { s.max_transitions },
            solved: (s.solved + 1) as usize,
            pending: None,
            frames: s.frames + frames_using(combos, results, gts, results.len()),
            trans: s.trans.push(SpecTransitionFrame { trans: gts, grade: 0 }),
            ..s
        }
    } else {
        SpecSearch { pending: None, ..s }
    }
}

impl View for GeneratedSearch {
    type V = SpecSearch;

    closed spec fn view(&self) -> SpecSearch {
        SpecSearch {
            max_transitions: self.max_transitions,
            max_solutions: self.max_solutions,
            max_tries: self.max_tries,
            kill_search: self.kill_search,
            nr_trans: self.nr_trans,
            solved: self.solved,
            tries_left: self.tries_left,
            out_of_tries: self.out_of_tries,
            in_round: self.in_round,
            tried: self.tried@.map_values(|t: Vec<Transition>| transitions_view(t@)),
            pending: match self.pending {
                Some(p) => Some(transitions_view(p@)),
                None => None,
            },
            frames: hint_frames_view(self.frames@),
            trans: transition_frames_view(self.trans@),
        }
    }
}

/// The consistency of a search state: the counters stay within their
/// limits, a pending set is the last one tried, no set is tried twice up to
/// names, every kept set is one of those tried, and every kept frame is
/// solved, ungraded and uses all of a kept set.
pub open spec fn search_wf(s: SpecSearch) -> bool {
    &&& s.nr_trans <= s.max_transitions
    &&& s.tries_left <= s.max_tries
    &&& s.solved <= s.max_solutions
    &&& s.in_round ==> s.nr_trans >= 1
    &&& s.pending is Some ==> {
        &&& round_open_before_try(s)
        &&& s.tried.len() > 0
        &&& s.tried.last() == s.pending->0
        &&& (s.pending->0).len() <= s.nr_trans
    }
    &&& forall|i: int| 0 <= i < s.trans.len() ==> 0 < (#[trigger] s.trans[i]).trans.len() <= s.nr_trans
    &&& forall|i: int, j: int| 0 <= i < j < s.tried.len() ==> !same_steps(#[trigger] s.tried[i], #[trigger] s.tried[j])
    &&& forall|i: int| 0 <= i < s.trans.len() ==> (#[trigger] s.trans[i]).grade == 0
    &&& forall|i: int| 0 <= i < s.trans.len() ==> s.tried.contains((#[trigger] s.trans[i]).trans)
    &&& forall|i: int|
        0 <= i < s.frames.len() ==> {
            &&& (#[trigger] s.frames[i]).result.found
            &&& s.frames[i].grade == 0
            &&& exists|t: int| 0 <= t < s.trans.len() && uses_all(s.frames[i].result.plan, #[trigger] s.trans[t].trans)
        }
}

/// While a set is pending, its round was open when it was drawn: a success
/// may still be counted.
pub open spec fn round_open_before_try(s: SpecSearch) -> bool {
    s.in_round && s.solved < s.max_solutions
}

/// Recording a set that was not tried before as pending keeps a search
/// consistent.
proof fn lemma_wf_new_candidate(s: SpecSearch, t: SpecSearch, gts: Seq<SpecTransition>)
    requires
        search_wf(s),
        s.pending is None,
        round_open_before_try(s),
        gts.len() <= s.nr_trans,
        forall|k: int| 0 <= k < s.tried.len() ==> !same_steps(#[trigger] s.tried[k], gts),
        t == (SpecSearch { tried: s.tried.push(gts), pending: Some(gts), ..s }),
    ensures
        search_wf(t),
{
    assert forall|i: int, j: int| 0 <= i < j < t.tried.len() implies !same_steps(
        #[trigger] t.tried[i],
        #[trigger] t.tried[j],
    ) by {
        if j == t.tried.len() - 1 {
            assert(t.tried[i] == s.tried[i]);
            assert(t.tried[j] == gts);
            assert(!same_steps(s.tried[i], gts));
        } else {
            assert(t.tried[i] == s.tried[i]);
            assert(t.tried[j] == s.tried[j]);
        }
    }
    assert forall|i: int| 0 <= i < t.trans.len() implies t.tried.contains((#[trigger] t.trans[i]).trans) by {
        assert(t.trans[i] == s.trans[i]);
        let k = choose|k: int| 0 <= k < s.tried.len() && s.tried[k] == s.trans[i].trans;
        assert(t.tried[k] == s.tried[k]);
    }
    assert(t.tried.last() == gts);
    assert(t.frames == s.frames);
    assert(t.trans == s.trans);
    assert(round_open_before_try(t));
}

/// The frame of scenario `i` with grade zero.
pub open spec fn frame_at(
    combos: Seq<(Seq<(SpecVariable, SpecValue)>, SpecPredicate)>,
    results: Seq<SpecPlanningResult>,
    i: int,
) -> SpecHintFrame {
    SpecHintFrame { init: combos[i].0, goal: combos[i].1, result: results[i], grade: 0 }
}

/// Every frame kept from a round's answers uses all of the set, and comes
/// with the answer of its scenario.
proof fn lemma_frames_using(
    combos: Seq<(Seq<(SpecVariable, SpecValue)>, SpecPredicate)>,
    results: Seq<SpecPlanningResult>,
    gts: Seq<SpecTransition>,
    n: nat,
)
    requires
        n <= results.len(),
    ensures
        forall|i: int|
            0 <= i < frames_using(combos, results, gts, n).len() ==> {
                &&& uses_all((#[trigger] frames_using(combos, results, gts, n)[i]).result.plan, gts)
                &&& frames_using(combos, results, gts, n)[i].grade == 0
                &&& exists|j: int| 0 <= j < n && frames_using(combos, results, gts, n)[i].result == #[trigger] results[j]
            },
    decreases n,
{
    if n > 0 {
        lemma_frames_using(combos, results, gts, (n - 1) as nat);
        let before = frames_using(combos, results, gts, (n - 1) as nat);
        let now = frames_using(combos, results, gts, n);
        assert forall|i: int| 0 <= i < now.len() implies {
            &&& uses_all((#[trigger] now[i]).result.plan, gts)
            &&& now[i].grade == 0
            &&& exists|j: int| 0 <= j < n && now[i].result == #[trigger] results[j]
        } by {
            if i < before.len() {
                assert(now[i] == before[i]);
                let j = choose|j: int| 0 <= j < n - 1 && before[i].result == #[trigger] results[j];
                assert(now[i].result == results[j]);
            } else {
                assert(now[i].result == results[n - 1]);
            }
        }
    }
}

/// The scenarios among the first `n` whose plan uses every transition of
/// `gts`, in order.
pub open spec fn scenarios_using(results: Seq<SpecPlanningResult>, gts: Seq<SpecTransition>, n: nat) -> Seq<int> {
    Seq::new(n, |i: int| i).filter(|i: int| uses_all(results[i].plan, gts))
}

proof fn lemma_frames_using_filter(
    combos: Seq<(Seq<(SpecVariable, SpecValue)>, SpecPredicate)>,
    results: Seq<SpecPlanningResult>,
    gts: Seq<SpecTransition>,
    n: nat,
)
    ensures
        frames_using(combos, results, gts, n) == scenarios_using(results, gts, n).map_values(
            |i: int| frame_at(combos, results, i),
        ),
    decreases n,
{
    reveal(Seq::filter);
    let idx = Seq::new(n, |i: int| i);
    let pred = |i: int| uses_all(results[i].plan, gts);
    let fa = |i: int| frame_at(combos, results, i);
    if n == 0 {
        assert(idx.filter(pred) =~= Seq::<int>::empty());
        assert(scenarios_using(results, gts, n).map_values(fa) =~= Seq::<SpecHintFrame>::empty());
    } else {
        lemma_frames_using_filter(combos, results, gts, (n - 1) as nat);
        let m = (n - 1) as nat;
        assert(idx.drop_last() =~= Seq::new(m, |i: int| i));
        assert(idx.last() == n - 1);
        let before = scenarios_using(results, gts, m);
        assert(idx.filter(pred) == if pred(n - 1) { before.push(n - 1) } else { before });
        if pred(n - 1) {
            assert(before.push(n - 1).map_values(fa) =~= before.map_values(fa).push(fa(n - 1)));
        }
    }
}

/// When every scenario is solved by a non-empty pending set, the frames kept
/// are exactly those of the scenarios whose plan uses every transition of the
/// set, one per such scenario, in scenario order; so every such scenario
/// gives a frame, and as many frames are added as there are such scenarios.
pub proof fn lemma_kept_frames(
    s: SpecSearch,
    combos: Seq<(Seq<(SpecVariable, SpecValue)>, SpecPredicate)>,
    results: Seq<SpecPlanningResult>,
)
    requires
        s.pending is Some,
        (s.pending->0).len() > 0,
        all_found(results),
        combos.len() == results.len(),
    ensures
        after_results(s, combos, results).frames == s.frames + scenarios_using(
            results,
            s.pending->0,
            results.len() as nat,
        ).map_values(|i: int| frame_at(combos, results, i)),
        after_results(s, combos, results).frames.len() == s.frames.len() + scenarios_using(
            results,
            s.pending->0,
            results.len() as nat,
        ).len(),
        forall|i: int|
            0 <= i < results.len() && uses_all(results[i].plan, s.pending->0) ==> after_results(
                s,
                combos,
                results,
            ).frames.subrange(s.frames.len() as int, after_results(s, combos, results).frames.len() as int).contains(
                #[trigger] frame_at(combos, results, i),
            ),
{
    let gts = s.pending->0;
    let n = results.len() as nat;
    let fa = |i: int| frame_at(combos, results, i);
    lemma_frames_using_filter(combos, results, gts, n);
    let users = scenarios_using(results, gts, n);
    let t = after_results(s, combos, results);
    assert(t.frames.subrange(s.frames.len() as int, t.frames.len() as int) =~= users.map_values(fa));
    assert forall|i: int| 0 <= i < results.len() && uses_all(results[i].plan, gts) implies t.frames.subrange(
        s.frames.len() as int,
        t.frames.len() as int,
    ).contains(#[trigger] frame_at(combos, results, i)) by {
        let idx = Seq::new(n, |k: int| k);
        let pred = |k: int| uses_all(results[k].plan, gts);
        assert(pred(idx[i]));
        idx.lemma_filter_contains(pred, i);
        let q = choose|q: int| 0 <= q < users.len() && users[q] == idx[i];
        assert(users.map_values(fa)[q] == frame_at(combos, results, i));
    }
}

/// Keeping a set that solved every scenario keeps a search consistent.
proof fn lemma_wf_after_success(s: SpecSearch, t: SpecSearch, gts: Seq<SpecTransition>, added: Seq<SpecHintFrame>)
    requires
        search_wf(s),
        s.pending == Some(gts),
        gts.len() > 0,
        t.pending is None,
        t.tried == s.tried,
        t.nr_trans == s.nr_trans,
        t.max_solutions == s.max_solutions,
        t.max_tries == s.max_tries,
        t.tries_left == s.tries_left,
        t.in_round == s.in_round,
        t.solved == s.solved + 1,
        t.max_transitions == s.max_transitions || t.max_transitions == s.nr_trans,
        t.frames == s.frames + added,
        t.trans == s.trans.push(SpecTransitionFrame { trans: gts, grade: 0 }),
        forall|i: int|
            0 <= i < added.len() ==> uses_all((#[trigger] added[i]).result.plan, gts) && added[i].grade == 0
                && added[i].result.found,
    ensures
        search_wf(t),
{
    assert forall|i: int| 0 <= i < t.trans.len() implies (#[trigger] t.trans[i]).grade == 0 && 0 < t.trans[i].trans.len()
        <= t.nr_trans by {
        if i < s.trans.len() {
            assert(t.trans[i] == s.trans[i]);
        }
    }
    assert forall|i: int| 0 <= i < t.frames.len() implies {
        &&& (#[trigger] t.frames[i]).result.found
        &&& t.frames[i].grade == 0
        &&& exists|k: int| 0 <= k < t.trans.len() && uses_all(t.frames[i].result.plan, #[trigger] t.trans[k].trans)
    } by {
        if i < s.frames.len() {
            assert(t.frames[i] == s.frames[i]);
            let k = choose|k: int| 0 <= k < s.trans.len() && uses_all(s.frames[i].result.plan, #[trigger] s.trans[k].trans);
            assert(t.trans[k] == s.trans[k]);
        } else {
            assert(t.frames[i] == added[i - s.frames.len()]);
            assert(t.trans[s.trans.len() as int].trans == gts);
        }
    }
}

/// What holds of every consistent search: no two sets were tried that are
/// the same up to names; every kept set is one of those tried, is ungraded
/// and has at least one and
/// at most as many transitions as the current round, which never exceeds the
/// last round; every kept frame is a solved, ungraded scenario whose plan
/// uses every transition of some kept set; and the progress measure, which
/// each drawn candidate lowers and each recorded answer never raises, is a
/// triple of non-negative numbers, so the search ends.
pub proof fn lemma_search_laws(s: SpecSearch)
    requires
        search_wf(s),
    ensures
        forall|i: int, j: int| 0 <= i < j < s.tried.len() ==> !same_steps(#[trigger] s.tried[i], #[trigger] s.tried[j]),
        forall|i: int|
            0 <= i < s.trans.len() ==> (#[trigger] s.trans[i]).grade == 0 && 0 < s.trans[i].trans.len() <= s.nr_trans
                && s.tried.contains(s.trans[i].trans),
        s.nr_trans <= s.max_transitions,
        forall|i: int|
            0 <= i < s.frames.len() ==> (#[trigger] s.frames[i]).result.found && s.frames[i].grade == 0
                && exists|t: int|
                0 <= t < s.trans.len() && uses_all(s.frames[i].result.plan, #[trigger] s.trans[t].trans),
        measure(s).0 >= 0,
        measure(s).1 >= 0,
        measure(s).2 >= 0,
{
}

/// The state after offering the sets `sets` in turn.
pub open spec fn offer_all(s: SpecSearch, sets: Seq<Seq<SpecTransition>>) -> SpecSearch
    decreases sets.len(),
{
    if sets.len() == 0 {
        s
    } else {
        after_offer(offer_all(s, sets.drop_last()), sets.last())
    }
}

proof fn lemma_offer_all_counts(s: SpecSearch, sets: Seq<Seq<SpecTransition>>)
    requires
        !s.out_of_tries,
        sets.len() <= s.tries_left + 1,
    ensures
        offer_all(s, sets).in_round == s.in_round,
        offer_all(s, sets).solved == s.solved,
        offer_all(s, sets).max_solutions == s.max_solutions,
        sets.len() <= s.tries_left ==> !offer_all(s, sets).out_of_tries && offer_all(s, sets).tries_left == s.tries_left - sets.len(),
        sets.len() == s.tries_left + 1 ==> offer_all(s, sets).out_of_tries,
    decreases sets.len(),
{
    if sets.len() > 0 {
        lemma_offer_all_counts(s, sets.drop_last());
    }
}

/// Every new round, whatever the rounds before it used, may draw exactly
/// `max_tries + 1` sets when none of them works: after up to `max_tries`
/// offers the round is still open, after `max_tries + 1` it is not.
pub proof fn lemma_round_try_budget(s: SpecSearch, sets: Seq<Seq<SpecTransition>>)
    requires
        s.nr_trans < s.max_transitions,
        s.max_solutions > 0,
        sets.len() <= s.max_tries + 1,
    ensures
        sets.len() <= s.max_tries ==> round_open(offer_all(after_round(s), sets)),
        sets.len() == s.max_tries + 1 ==> !round_open(offer_all(after_round(s), sets)),
{
    lemma_offer_all_counts(after_round(s), sets);
}

/// A killing search that finds a set solving every scenario starts no
/// further round: the round in progress becomes the last.
pub proof fn lemma_kill_search_ends_after_round(
    s: SpecSearch,
    combos: Seq<(Seq<(SpecVariable, SpecValue)>, SpecPredicate)>,
    results: Seq<SpecPlanningResult>,
)
    requires
        search_wf(s),
        s.pending is Some,
        (s.pending->0).len() > 0,
        s.kill_search,
        all_found(results),
    ensures
        after_results(s, combos, results).max_transitions == s.nr_trans,
        !after_round(after_results(s, combos, results)).in_round,
{
}

/// Changing only counters, within their limits, keeps a search consistent.
proof fn lemma_wf_counters(s: SpecSearch, t: SpecSearch)
    requires
        search_wf(s),
        s.pending is None,
        t.pending is None,
        t.tried == s.tried,
        t.frames == s.frames,
        t.trans == s.trans,
        s.nr_trans <= t.nr_trans,
        t.nr_trans <= t.max_transitions,
        t.tries_left <= t.max_tries,
        t.solved <= t.max_solutions,
        t.in_round ==> t.nr_trans >= 1,
    ensures
        search_wf(t),
{
}

impl GeneratedSearch {
    /// A search that starts with no round run. `initial_results` holds the
    /// planner's answers for the scenarios under the unchanged model; when
    /// all of them were found there is nothing to search for.
    pub fn new(
        max_transitions: usize,
        max_solutions: usize,
        max_tries: usize,
        kill_search: bool,
        initial_results: &Vec<PlanningResult>,
    ) -> (r: GeneratedSearch)
        ensures
            search_wf(r@),
            r@ == (SpecSearch {
                max_transitions: if all_found(results_view(initial_results@)) { 0 } else { max_transitions },
                max_solutions,
                max_tries,
                kill_search,
                nr_trans: 0,
                solved: 0,
                tries_left: max_tries,
                out_of_tries: false,
                in_round: false,
                tried: Seq::empty(),
                pending: None,
                frames: Seq::empty(),
                trans: Seq::empty(),
            }),
    {
        let mut all = true;
        let mut i: usize = 0;
        while i < initial_results.len()
            invariant
                i <= initial_results.len(),
                all == forall|j: int| 0 <= j < i ==> #[trigger] initial_results@[j].found,
            decreases initial_results.len() - i,
        {
            all = all && initial_results[i].found;
            i = i + 1;
        }
        proof {
            let rv = results_view(initial_results@);
            if all {
                assert forall|j: int| 0 <= j < rv.len() implies #[trigger] rv[j].found by {
                    assert(initial_results@[j].found);
                }
            } else {
                let j = choose|j: int| 0 <= j < i && !#[trigger] initial_results@[j].found;
                assert(!rv[j].found);
            }
        }
        let r = GeneratedSearch {
            max_transitions: if all { 0 } else { max_transitions },
            max_solutions,
            max_tries,
            kill_search,
            nr_trans: 0,
            solved: 0,
            tries_left: max_tries,
            out_of_tries: false,
            in_round: false,
            tried: Vec::new(),
            pending: None,
            frames: Vec::new(),
            trans: Vec::new(),
        };
        proof {
            assert(r@.tried =~= Seq::<Seq<SpecTransition>>::empty());
            assert(r@.frames =~= Seq::<SpecHintFrame>::empty());
            assert(r@.trans =~= Seq::<SpecTransitionFrame>::empty());
        }
        r
    }

    /// Whether a set is waiting for the planner's answers.
    pub fn awaiting_results(&self) -> (r: bool)
        ensures
            r == self@.pending is Some,
    {
        self.pending.is_some()
    }

    /// Whether no further set will be drawn.
    pub fn is_finished(&self) -> (r: bool)
        ensures
            r == finished(self@),
    {
        !(self.in_round && self.solved < self.max_solutions && !self.out_of_tries)
            && self.nr_trans >= self.max_transitions
    }

    /// Whether a set will still be drawn.
    pub fn will_draw(&self) -> (r: bool)
        ensures
            r == may_draw(self@),
    {
        (self.in_round && self.solved < self.max_solutions && !self.out_of_tries) || (self.nr_trans
            < self.max_transitions && self.max_solutions > 0)
    }

    /// Offers the drawn set `gts` to the current round, which counts the try.
    /// A set not tried before (up to names) becomes pending and is recorded
    /// as tried, and `model` extended by it is returned; a set tried before
    /// is dropped, and `None` returned. `after_offer` says what changes.
    pub fn offer_candidate(&mut self, gts: Vec<Transition>, model: &Vec<Transition>) -> (r: Option<Vec<Transition>>)
        requires
            search_wf(old(self)@),
            old(self)@.pending is None,
            round_open(old(self)@),
            gts.len() <= old(self)@.nr_trans,
        ensures
            search_wf(final(self)@),
            final(self)@ == after_offer(old(self)@, transitions_view(gts@)),
            r is Some <==> !tried_set(old(self)@, transitions_view(gts@)),
            r matches Some(m) ==> transitions_view(m@) == transitions_view(model@) + transitions_view(gts@),
    {
        let ghost before = self@;
        let ghost gv = transitions_view(gts@);
        if self.tries_left == 0 {
            self.out_of_tries = true;
        } else {
            self.tries_left = self.tries_left - 1;
        }
        let ghost after_try = self@;
        proof {
            assert(after_try.tried == before.tried);
            assert(after_try.frames == before.frames);
            assert(after_try.trans == before.trans);
            lemma_wf_counters(before, after_try);
        }
        if tried_before(&self.tried, &gts) {
            proof {
                let k = choose|k: int|
                    0 <= k < self.tried.len() && same_steps(transitions_view((#[trigger] self.tried@[k])@), gv);
                assert(before.tried[k] == transitions_view(self.tried@[k]@));
                assert(tried_set(before, gv));
                assert(self@ == after_offer(before, gv));
            }
            return None;
        }
        proof {
            assert forall|k: int| 0 <= k < before.tried.len() implies !same_steps(#[trigger] before.tried[k], gv) by {
                assert(before.tried[k] == transitions_view(self.tried@[k]@));
            }
        }
        let copied = copy_transitions(&gts);
        self.tried.push(copied);
        let m = concat_transitions(model, &gts);
        self.pending = Some(gts);
        proof {
            assert(self@.tried =~= after_try.tried.push(gv));
            assert(self@.frames == after_try.frames);
            assert(self@.trans == after_try.trans);
            lemma_wf_new_candidate(after_try, self@, gv);
            assert(self@ == after_offer(before, gv));
        }
        Some(m)
    }

    /// Ends the current round, which may draw no further set: starts the
    /// next round if there is one and returns whether it did, as
    /// `after_round` says.
    pub fn advance_round(&mut self) -> (more: bool)
        requires
            search_wf(old(self)@),
            old(self)@.pending is None,
            !round_open(old(self)@),
        ensures
            search_wf(final(self)@),
            final(self)@ == after_round(old(self)@),
            more == (old(self)@.nr_trans < old(self)@.max_transitions),
    {
        let ghost before = self@;
        if self.nr_trans < self.max_transitions {
            self.nr_trans = self.nr_trans + 1;
            self.solved = 0;
            self.tries_left = self.max_tries;
            self.out_of_tries = false;
            self.in_round = true;
            proof {
                assert(self@.tried == before.tried);
                assert(self@.frames == before.frames);
                assert(self@.trans == before.trans);
                lemma_wf_counters(before, self@);
                assert(self@ == after_round(before));
            }
            true
        } else {
            self.in_round = false;
            proof {
                assert(self@.tried == before.tried);
                assert(self@.frames == before.frames);
                assert(self@.trans == before.trans);
                lemma_wf_counters(before, self@);
                assert(self@ == after_round(before));
            }
            false
        }
    }

    /// Draws sets for the current round, starting new rounds as rounds end,
    /// until a set is drawn that was not tried before (up to names). Returns
    /// `model` extended by that set, which is then pending, or `None` when the
    /// search has finished.
    pub fn next_candidate(&mut self, model: &Vec<Transition>, vars: &Vec<Variable>) -> (r: Option<Vec<Transition>>)
        requires
            search_wf(old(self)@),
            old(self)@.pending is None,
            domains_nonempty(vars@) || finished(old(self)@) || old(self)@.max_solutions == 0,
        ensures
            search_wf(final(self)@),
            final(self)@.max_transitions == old(self)@.max_transitions,
            final(self)@.max_solutions == old(self)@.max_solutions,
            final(self)@.max_tries == old(self)@.max_tries,
            final(self)@.kill_search == old(self)@.kill_search,
            final(self)@.frames == old(self)@.frames,
            final(self)@.trans == old(self)@.trans,
            r is None <==> final(self)@.pending is None,
            r is None ==> finished(final(self)@) && final(self)@.tried == old(self)@.tried
                && final(self)@.nr_trans == final(self)@.max_transitions && !final(self)@.in_round,
            old(self)@.tried.len() == 0 && may_draw(old(self)@) ==> r is Some,
            exists|states: Seq<SpecSearch>, steps: Seq<Option<Seq<SpecTransition>>>|
                {
                    &&& #[trigger] passing_run(states, steps, variables_view(vars@))
                    &&& states[0] == old(self)@
                    &&& r is None ==> states.last() == final(self)@
                    &&& r is Some ==> {
                        &&& round_open(states.last())
                        &&& drawn_set(states.last(), variables_view(vars@), final(self)@.pending->0)
                        &&& !tried_set(states.last(), final(self)@.pending->0)
                        &&& final(self)@ == after_offer(states.last(), final(self)@.pending->0)
                    }
                },
            r matches Some(m) ==> candidate_drawn(
                old(self)@,
                final(self)@,
                transitions_view(model@),
                variables_view(vars@),
                transitions_view(m@),
            ),
    {
        let ghost start = self@;
        let ghost vv = variables_view(vars@);
        let ghost mut states: Seq<SpecSearch> = seq![start];
        let ghost mut steps: Seq<Option<Seq<SpecTransition>>> = Seq::empty();
        loop
            invariant
                start == old(self)@,
                vv == variables_view(vars@),
                passing_run(states, steps, vv),
                states[0] == start,
                states.last() == self@,
                search_wf(self@),
                self@.pending is None,
                self@.max_transitions == start.max_transitions,
                self@.max_solutions == start.max_solutions,
                self@.max_tries == start.max_tries,
                self@.kill_search == start.kill_search,
                self@.frames == start.frames,
                self@.trans == start.trans,
                self@.tried == start.tried,
                domains_nonempty(vars@) || finished(self@) || self@.max_solutions == 0,
                start.tried.len() == 0 && may_draw(start) ==> may_draw(self@),
                measure_le(measure(self@), measure(start)),
            decreases
                self.max_transitions - self.nr_trans,
                if self.in_round && self.solved < self.max_solutions && !self.out_of_tries { 1int } else { 0int },
                if self.out_of_tries { 0int } else { self.tries_left + 1 },
        {
            let ghost before = self@;
            if self.in_round && self.solved < self.max_solutions && !self.out_of_tries {
                let ns = decimal_string(self.nr_trans);
                let namespace = indexed_name(ns.as_str(), self.solved + 1);
                let gts = generate_random_transitions(namespace.as_str(), vars, self.nr_trans, self.max_tries);
                let ghost gv = transitions_view(gts@);
                proof {
                    assert forall|k: int| 0 <= k < gv.len() implies is_random_step(variables_view(vars@), #[trigger] gv[k]) by {
                        assert(gv[k] == gts@[k]@);
                    }
                    assert forall|k1: int, k2: int| 0 <= k1 < k2 < gv.len() implies !same_step(#[trigger] gv[k1], #[trigger] gv[k2]) by {
                        assert(gv[k1] == gts@[k1]@);
                        assert(gv[k2] == gts@[k2]@);
                    }
                    assert forall|k: int| 0 <= k < gv.len() implies (#[trigger] gv[k]).name == generated_name(
                        decimal(before.nr_trans as nat) + seq!['_'] + decimal((before.solved + 1) as nat),
                        (k + 1) as nat,
                    ) by {
                        assert(gv[k] == gts@[k]@);
                    }
                }
                proof {
                    assert(drawn_set(before, vv, gv));
                }
                match self.offer_candidate(gts, model) {
                    Some(m) => {
                        proof {
                            assert(self@.pending->0 == gv);
                        }
                        return Some(m);
                    },
                    None => {
                        proof {
                            let ghost old_states = states;
                            let ghost old_steps = steps;
                            states = states.push(self@);
                            steps = steps.push(Some(gv));
                            assert forall|i: int| 0 <= i < steps.len() implies passing_step(
                                states[i],
                                #[trigger] steps[i],
                                states[i + 1],
                                vv,
                            ) by {
                                if i < old_steps.len() {
                                    assert(steps[i] == old_steps[i]);
                                    assert(states[i] == old_states[i]);
                                    assert(states[i + 1] == old_states[i + 1]);
                                } else {
                                    assert(states[i] == before);
                                }
                            }
                        }
                    },
                }
            } else {
                let more = self.advance_round();
                proof {
                    let ghost old_states = states;
                    let ghost old_steps = steps;
                    states = states.push(self@);
                    steps = steps.push(None);
                    assert forall|i: int| 0 <= i < steps.len() implies passing_step(
                        states[i],
                        #[trigger] steps[i],
                        states[i + 1],
                        vv,
                    ) by {
                        if i < old_steps.len() {
                            assert(steps[i] == old_steps[i]);
                            assert(states[i] == old_states[i]);
                            assert(states[i + 1] == old_states[i + 1]);
                        } else {
                            assert(states[i] == before);
                        }
                    }
                }
                if !more {
                    proof {
                        assert(passing_run(states, steps, vv));
                    }
                    return None;
                }
            }
        }
    }

    /// Takes the planner's answers `results` for the scenarios `combos` under
    /// the model extended by the pending set, as `after_results` says.
    pub fn record_results(&mut self, combos: &Vec<(State, Predicate)>, results: &Vec<PlanningResult>)
        requires
            search_wf(old(self)@),
            old(self)@.pending is Some,
            results.len() == combos.len(),
        ensures
            search_wf(final(self)@),
            final(self)@ == after_results(old(self)@, combinations_view(combos@), results_view(results@)),
            measure_le(measure(final(self)@), measure(old(self)@)),
    {
        let ghost start = self@;
        let ghost cv = combinations_view(combos@);
        let ghost rv = results_view(results@);
        let pending = self.pending.take();
        let gts = match pending {
            Some(g) => g,
            None => {
                proof {
                    assert(false);
                }
                Vec::new()
            },
        };
        let ghost gv = transitions_view(gts@);
        assert(gv == start.pending->0);
        let mut all = true;
        let mut i: usize = 0;
        while i < results.len()
            invariant
                i <= results.len(),
                rv == results_view(results@),
                all == forall|j: int| 0 <= j < i ==> #[trigger] results@[j].found,
            decreases results.len() - i,
        {
            all = all && results[i].found;
            i = i + 1;
        }
        proof {
            if all {
                assert forall|j: int| 0 <= j < rv.len() implies #[trigger] rv[j].found by {
                    assert(results@[j].found);
                }
            } else {
                let j = choose|j: int| 0 <= j < i && !#[trigger] results@[j].found;
                assert(!rv[j].found);
            }
        }
        if all && gts.len() > 0 {
            if self.kill_search {
                self.max_transitions = self.nr_trans;
            }
            self.solved = self.solved + 1;
            let mut added: Vec<HintFrame> = Vec::new();
            let mut k: usize = 0;
            while k < results.len()
                invariant
                    k <= results.len(),
                    results.len() == combos.len(),
                    rv == results_view(results@),
                    cv == combinations_view(combos@),
                    gv == transitions_view(gts@),
                    hint_frames_view(added@) == frames_using(cv, rv, gv, k as nat),
                decreases results.len() - k,
            {
                let ghost before = added@;
                if plan_uses_all(&results[k].plan, &gts) {
                    let frame = HintFrame {
                        init: combos[k].0.deep_copy(),
                        goal: combos[k].1.deep_copy(),
                        result: results[k].deep_copy(),
                        grade: 0,
                    };
                    added.push(frame);
                    proof {
                        assert(hint_frames_view(added@) =~= hint_frames_view(before).push(
                            frame_at(cv, rv, k as int),
                        ));
                    }
                }
                proof {
                    assert(frames_using(cv, rv, gv, (k + 1) as nat) == if uses_all(rv[k as int].plan, gv) {
                        frames_using(cv, rv, gv, k as nat).push(frame_at(cv, rv, k as int))
                    } else {
                        frames_using(cv, rv, gv, k as nat)
                    });
                }
                k = k + 1;
            }
            let ghost frames_before = self.frames@;
            let ghost added_view = hint_frames_view(added@);
            self.frames.append(&mut added);
            let ghost trans_before = self.trans@;
            self.trans.push(TransitionFrame { trans: gts, grade: 0 });
            proof {
                assert(hint_frames_view(self.frames@) =~= hint_frames_view(frames_before) + added_view);
                assert(transition_frames_view(self.trans@) =~= transition_frames_view(trans_before).push(
                    SpecTransitionFrame { trans: gv, grade: 0 },
                ));
                lemma_frames_using(cv, rv, gv, results.len() as nat);
                let fu = frames_using(cv, rv, gv, results.len() as nat);
                assert forall|i: int| 0 <= i < fu.len() implies (#[trigger] fu[i]).result.found by {
                    let j = choose|j: int| 0 <= j < results.len() && fu[i].result == #[trigger] rv[j];
                }
                assert(self@.tried == start.tried);
                lemma_wf_after_success(start, self@, gv, fu);
                assert(self@ == after_results(start, cv, rv));
            }
        }
        proof {
            if !(all && gts.len() > 0) {
                assert(self@.tried == start.tried);
                assert(self@.frames == start.frames);
                assert(self@.trans == start.trans);
                assert(self@ == after_results(start, cv, rv));
            }
        }
    }

    /// The hint frames and transition sets kept.
    pub fn into_hint(self) -> (h: GeneratedHint)
        ensures
            hint_frames_view(h.frames@) == self@.frames,
            transition_frames_view(h.trans@) == self@.trans,
            search_wf(self@) ==> forall|f: int| 0 <= f < h.trans.len() ==> (#[trigger] h.trans@[f]).trans.len() > 0,
    {
        let h = GeneratedHint { frames: self.frames, trans: self.trans };
        proof {
            assert forall|f: int| search_wf(self@) && 0 <= f < h.trans.len() implies (#[trigger] h.trans@[f]).trans.len() > 0 by {
                assert(transition_frames_view(h.trans@)[f].trans == transitions_view(h.trans@[f].trans@));
                assert(self@.trans[f] == transition_frames_view(h.trans@)[f]);
                assert(self@.trans[f].trans.len() > 0);
            }
        }
        h
    }
}

} // verus!
