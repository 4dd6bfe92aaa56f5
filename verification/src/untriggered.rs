//! The transitions of a model that no solved scenario uses.
use vstd::prelude::*;
use crate::model::{PlanningResult, Transition, contains_string, strings_view};
use crate::text::{insert_sorted, lemma_strictly_sorted_unique, strictly_sorted};

verus! {

/// Whether a found plan among `results` uses the transition named `name`.
pub open spec fn taken(results: Seq<PlanningResult>, name: Seq<char>) -> bool {
    exists|i: int| 0 <= i < results.len() && #[trigger] results[i].found && results[i]@.plan.contains(name)
}

/// Whether some transition of `model` is named `name`.
pub open spec fn in_model(model: Seq<Transition>, name: Seq<char>) -> bool {
    exists|i: int| 0 <= i < model.len() && #[trigger] model[i].name@ == name
}

/// The names of the transitions of `model` that no found plan uses.
pub open spec fn untaken_names(model: Seq<Transition>, results: Seq<PlanningResult>) -> Set<Seq<char>> {
    Set::new(|name: Seq<char>| in_model(model, name) && !taken(results, name))
}

/// The names of the transitions of `model` that no found plan among
/// `results` uses, in order and each once. `results` holds the planner's
/// answer for each valid initial state and goal.
pub fn step_2(model: &Vec<Transition>, results: &Vec<PlanningResult>) -> (r: Vec<String>)
    ensures
        strictly_sorted(strings_view(r@)),
        strings_view(r@).to_set() == untaken_names(model@, results@),
{
    let mut taken_names: Vec<String> = Vec::new();
    let mut i: usize = 0;
    while i < results.len()
        invariant
            i <= results.len(),
            forall|name: Seq<char>|
                #[trigger] strings_view(taken_names@).contains(name) <==> taken(
                    results@.take(i as int),
                    name,
                ),
        decreases results.len() - i,
    {
        let ghost before = strings_view(taken_names@);
        if results[i].found {
            let plan = &results[i].plan;
            let mut j: usize = 0;
            while j < plan.len()
                invariant
                    j <= plan.len(),
                    plan == &results@[i as int].plan,
                    forall|name: Seq<char>|
                        #[trigger] strings_view(taken_names@).contains(name) <==> (before.contains(
                            name,
                        ) || strings_view(plan@).take(j as int).contains(name)),
                decreases plan.len() - j,
            {
                let ghost old_view = strings_view(taken_names@);
                let ghost pv = strings_view(plan@);
                let ghost t0 = pv.take(j as int);
                let ghost t1 = pv.take(j + 1);
                proof {
                    assert forall|name: Seq<char>| #[trigger] old_view.contains(name) <==> (before.contains(
                        name,
                    ) || t0.contains(name)) by {
                        assert(strings_view(taken_names@).contains(name) == old_view.contains(name));
                    }
                }
                taken_names.push(plan[j].clone());
                proof {
                    let now = strings_view(taken_names@);
                    assert(now.drop_last() =~= old_view);
                    assert(now[now.len() - 1] == t1[j as int]);
                    assert forall|name: Seq<char>| #[trigger] now.contains(name) <==> (before.contains(name)
                        || t1.contains(name)) by {
                        if t1.contains(name) {
                            let k = choose|k: int| 0 <= k < t1.len() && t1[k] == name;
                            if k < j {
                                assert(t0[k] == name);
                                assert(old_view.contains(name));
                                let m = choose|m: int| 0 <= m < old_view.len() && old_view[m] == name;
                                assert(now[m] == name);
                            } else {
                                assert(now[now.len() - 1] == name);
                            }
                        }
                        if now.contains(name) {
                            let k = choose|k: int| 0 <= k < now.len() && now[k] == name;
                            if k == now.len() - 1 {
                                assert(t1[j as int] == name);
                            } else {
                                assert(old_view[k] == name);
                                assert(old_view.contains(name));
                                if t0.contains(name) {
                                    let m = choose|m: int| 0 <= m < t0.len() && t0[m] == name;
                                    assert(t1[m] == name);
                                }
                            }
                        }
                        if before.contains(name) {
                            assert(old_view.contains(name));
                            let k = choose|k: int| 0 <= k < old_view.len() && old_view[k] == name;
                            assert(now[k] == name);
                        }
                    }
                }
                j = j + 1;
            }
            proof {
                assert(strings_view(plan@).take(plan.len() as int) =~= strings_view(plan@));
            }
        }
        proof {
            let now = strings_view(taken_names@);
            let rs = results@.take(i + 1);
            assert forall|name: Seq<char>| #[trigger] now.contains(name) <==> taken(rs, name) by {
                if taken(rs, name) {
                    let k = choose|k: int| 0 <= k < rs.len() && #[trigger] rs[k].found && rs[k]@.plan.contains(name);
                    if k < i {
                        assert(results@.take(i as int)[k] == rs[k]);
                        assert(taken(results@.take(i as int), name));
                    }
                }
                if taken(results@.take(i as int), name) {
                    let k = choose|k: int|
                        0 <= k < i && #[trigger] results@.take(i as int)[k].found && results@.take(
                            i as int,
                        )[k]@.plan.contains(name);
                    assert(rs[k] == results@.take(i as int)[k]);
                }
                if results[i as int].found && results[i as int]@.plan.contains(name) {
                    assert(rs[i as int] == results[i as int]);
                }
            }
        }
        i = i + 1;
    }
    proof {
        assert(results@.take(results.len() as int) =~= results@);
    }
    let mut out: Vec<String> = Vec::new();
    let mut t: usize = 0;
    while t < model.len()
        invariant
            t <= model.len(),
            forall|name: Seq<char>|
                #[trigger] strings_view(taken_names@).contains(name) <==> taken(results@, name),
            strictly_sorted(strings_view(out@)),
            strings_view(out@).to_set() == untaken_names(model@.take(t as int), results@),
        decreases model.len() - t,
    {
        let ghost before = strings_view(out@).to_set();
        if !contains_string(&taken_names, &model[t].name) {
            insert_sorted(&mut out, model[t].name.clone());
        }
        proof {
            let ms = model@.take(t + 1);
            assert forall|name: Seq<char>|
                #[trigger] strings_view(out@).to_set().contains(name) == untaken_names(ms, results@).contains(name) by {
                if in_model(ms, name) {
                    let k = choose|k: int| 0 <= k < ms.len() && #[trigger] ms[k].name@ == name;
                    if k < t {
                        assert(model@.take(t as int)[k] == ms[k]);
                    }
                }
                if in_model(model@.take(t as int), name) {
                    let k = choose|k: int| 0 <= k < t && #[trigger] model@.take(t as int)[k].name@ == name;
                    assert(ms[k] == model@.take(t as int)[k]);
                }
                if name == model[t as int].name@ {
                    assert(ms[t as int] == model[t as int]);
                }
            }
            assert(strings_view(out@).to_set() =~= untaken_names(ms, results@));
        }
        t = t + 1;
    }
    proof {
        assert(model@.take(model.len() as int) =~= model@);
    }
    out
}

/// What `step_2` returns depends on the planner's answers only as a set:
/// two answer lists that hold the same answers, in any order and with any
/// repetition, give the same list of names.
pub proof fn lemma_step_2_answers_as_set(
    model: Seq<Transition>,
    results1: Seq<PlanningResult>,
    results2: Seq<PlanningResult>,
    r1: Seq<Seq<char>>,
    r2: Seq<Seq<char>>,
)
    requires
        results1.to_set() == results2.to_set(),
        strictly_sorted(r1),
        r1.to_set() == untaken_names(model, results1),
        strictly_sorted(r2),
        r2.to_set() == untaken_names(model, results2),
    ensures
        r1 == r2,
{
    assert forall|name: Seq<char>| taken(results1, name) implies taken(results2, name) by {
        let i = choose|i: int| 0 <= i < results1.len() && #[trigger] results1[i].found && results1[i]@.plan.contains(name);
        assert(results1.to_set().contains(results1[i]));
        let j = choose|j: int| 0 <= j < results2.len() && results2[j] == results1[i];
        assert(results2[j].found);
    }
    assert forall|name: Seq<char>| taken(results2, name) implies taken(results1, name) by {
        let i = choose|i: int| 0 <= i < results2.len() && #[trigger] results2[i].found && results2[i]@.plan.contains(name);
        assert(results2.to_set().contains(results2[i]));
        let j = choose|j: int| 0 <= j < results1.len() && results1[j] == results2[i];
        assert(results1[j].found);
    }
    assert(untaken_names(model, results1) =~= untaken_names(model, results2));
    lemma_strictly_sorted_unique(r1, r2);
}

} // verus!
