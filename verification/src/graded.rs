//! Grading the hint frames and transition sets of a search by how many of
//! the model's untriggered transitions the plans use.
use vstd::prelude::*;
use crate::generated::{
    GeneratedHint, HintFrame, SpecHintFrame, SpecTransitionFrame, TransitionFrame, hint_frames_view,
    transition_frames_view, uses_all,
};
use crate::model::{contains_string, copy_transitions, strings_view, transitions_view};

verus! {

/// How many entries of `non_taken` the plan uses, counting repeated entries
/// as often as they occur.
pub open spec fn used_count(non_taken: Seq<Seq<char>>, plan: Seq<Seq<char>>) -> nat
    decreases non_taken.len(),
{
    if non_taken.len() == 0 {
        0
    } else {
        used_count(non_taken.drop_last(), plan) + if plan.contains(non_taken.last()) {
            1nat
        } else {
            0nat
        }
    }
}

/// The grade of a plan: one more than the number of untriggered
/// transitions it uses.
pub open spec fn frame_grade(non_taken: Seq<Seq<char>>, plan: Seq<Seq<char>>) -> nat {
    1 + used_count(non_taken, plan)
}

/// The highest grade among the plans of the first `k + 1` frames.
pub open spec fn best_grade(non_taken: Seq<Seq<char>>, hints: Seq<SpecHintFrame>, k: nat) -> nat
    decreases k,
{
    if k == 0 {
        frame_grade(non_taken, hints[0].result.plan)
    } else {
        let before = best_grade(non_taken, hints, (k - 1) as nat);
        let here = frame_grade(non_taken, hints[k as int].result.plan);
        if before >= here {
            before
        } else {
            here
        }
    }
}

/// The names of all transitions of all sets.
pub open spec fn generated_names(trans: Seq<SpecTransitionFrame>) -> Set<Seq<char>> {
    Set::new(
        |n: Seq<char>|
            exists|f: int, t: int|
                0 <= f < trans.len() && 0 <= t < trans[f].trans.len() && #[trigger] trans[f].trans[t].name == n,
    )
}

/// The plan uses some name of `names`.
pub open spec fn mentions(plan: Seq<Seq<char>>, names: Set<Seq<char>>) -> bool {
    exists|i: int| 0 <= i < plan.len() && names.contains(#[trigger] plan[i])
}

/// Every set, graded `g`.
pub open spec fn trans_round(trans: Seq<SpecTransitionFrame>, g: nat) -> Seq<SpecTransitionFrame> {
    Seq::new(trans.len(), |f: int| SpecTransitionFrame { trans: trans[f].trans, grade: g as usize })
}

/// Every frame, graded `g` when its plan uses a generated transition and
/// one otherwise.
pub open spec fn hints_round(hints: Seq<SpecHintFrame>, names: Set<Seq<char>>, g: nat) -> Seq<SpecHintFrame> {
    Seq::new(
        hints.len(),
        |j: int|
            SpecHintFrame {
                init: hints[j].init,
                goal: hints[j].goal,
                result: hints[j].result,
                grade: (if mentions(hints[j].result.plan, names) { g } else { 1 }) as usize,
            },
    )
}

/// The graded sets after the first `n` frames: for each frame in turn,
/// every set graded by the best frame grade so far.
pub open spec fn graded_trans(
    non_taken: Seq<Seq<char>>,
    hints: Seq<SpecHintFrame>,
    trans: Seq<SpecTransitionFrame>,
    n: nat,
) -> Seq<SpecTransitionFrame>
    decreases n,
{
    if n == 0 {
        Seq::empty()
    } else {
        graded_trans(non_taken, hints, trans, (n - 1) as nat) + trans_round(
            trans,
            best_grade(non_taken, hints, (n - 1) as nat),
        )
    }
}

/// The graded frames after the first `n` frames: for each frame in turn,
/// every frame graded against the best frame grade so far.
pub open spec fn graded_hints(
    non_taken: Seq<Seq<char>>,
    hints: Seq<SpecHintFrame>,
    trans: Seq<SpecTransitionFrame>,
    n: nat,
) -> Seq<SpecHintFrame>
    decreases n,
{
    if n == 0 {
        Seq::empty()
    } else {
        graded_hints(non_taken, hints, trans, (n - 1) as nat) + hints_round(
            hints,
            generated_names(trans),
            best_grade(non_taken, hints, (n - 1) as nat),
        )
    }
}

proof fn lemma_used_count_bound(non_taken: Seq<Seq<char>>, plan: Seq<Seq<char>>)
    ensures
        used_count(non_taken, plan) <= non_taken.len(),
    decreases non_taken.len(),
{
    if non_taken.len() > 0 {
        lemma_used_count_bound(non_taken.drop_last(), plan);
    }
}

pub proof fn lemma_best_grade_bounds(non_taken: Seq<Seq<char>>, hints: Seq<SpecHintFrame>, k: nat)
    requires
        k < hints.len(),
    ensures
        1 <= best_grade(non_taken, hints, k) <= non_taken.len() + 1,
        forall|j: int| 0 <= j <= k ==> frame_grade(non_taken, #[trigger] hints[j].result.plan) <= best_grade(non_taken, hints, k),
    decreases k,
{
    lemma_used_count_bound(non_taken, hints[k as int].result.plan);
    if k > 0 {
        lemma_best_grade_bounds(non_taken, hints, (k - 1) as nat);
    }
}

/// The best grade so far never drops from one frame to the next.
pub proof fn lemma_best_grade_monotone(non_taken: Seq<Seq<char>>, hints: Seq<SpecHintFrame>, k: nat)
    requires
        k + 1 < hints.len(),
    ensures
        best_grade(non_taken, hints, k) <= best_grade(non_taken, hints, k + 1),
{
}

/// Grading changes nothing but grades, and every grade is at least one:
/// the `j`-th set graded after frame `k` is the `j`-th set given, and the
/// `j`-th frame graded after frame `k` is the `j`-th frame given, each with
/// a grade of one or more.
pub proof fn lemma_grading_keeps_content(
    non_taken: Seq<Seq<char>>,
    hints: Seq<SpecHintFrame>,
    trans: Seq<SpecTransitionFrame>,
    k: nat,
    j: int,
)
    requires
        non_taken.len() < usize::MAX,
        k < hints.len(),
    ensures
        0 <= j < trans.len() ==> {
            let g = graded_trans(non_taken, hints, trans, hints.len() as nat)[k * trans.len() + j];
            &&& g.trans == trans[j].trans
            &&& g.grade >= 1
        },
        0 <= j < hints.len() ==> {
            let g = graded_hints(non_taken, hints, trans, hints.len() as nat)[k * hints.len() + j];
            &&& g.init == hints[j].init
            &&& g.goal == hints[j].goal
            &&& g.result == hints[j].result
            &&& g.grade >= 1
        },
{
    lemma_graded_layout(non_taken, hints, trans, hints.len() as nat, k, j);
    lemma_best_grade_bounds(non_taken, hints, k);
}

proof fn lemma_graded_layout(
    non_taken: Seq<Seq<char>>,
    hints: Seq<SpecHintFrame>,
    trans: Seq<SpecTransitionFrame>,
    n: nat,
    k: nat,
    j: int,
)
    requires
        non_taken.len() < usize::MAX,
        k < n <= hints.len(),
    ensures
        graded_trans(non_taken, hints, trans, n).len() == n * trans.len(),
        graded_hints(non_taken, hints, trans, n).len() == n * hints.len(),
        0 <= j < trans.len() ==> graded_trans(non_taken, hints, trans, n)[k * trans.len() + j] == trans_round(
            trans,
            best_grade(non_taken, hints, k),
        )[j],
        0 <= j < hints.len() ==> graded_hints(non_taken, hints, trans, n)[k * hints.len() + j] == hints_round(
            hints,
            generated_names(trans),
            best_grade(non_taken, hints, k),
        )[j],
    decreases n,
{
    let m = (n - 1) as nat;
    lemma_best_grade_bounds(non_taken, hints, m);
    let b = best_grade(non_taken, hints, m);
    if m > 0 {
        lemma_graded_layout(non_taken, hints, trans, m, 0, j);
        if k < m {
            lemma_graded_layout(non_taken, hints, trans, m, k, j);
        }
    } else {
        assert(graded_trans(non_taken, hints, trans, 0) =~= Seq::<SpecTransitionFrame>::empty());
        assert(graded_hints(non_taken, hints, trans, 0) =~= Seq::<SpecHintFrame>::empty());
    }
    let gt0 = graded_trans(non_taken, hints, trans, m);
    let gh0 = graded_hints(non_taken, hints, trans, m);
    assert(m * trans.len() + trans.len() == n * trans.len()) by (nonlinear_arith)
        requires
            n == m + 1,
    ;
    assert(m * hints.len() + hints.len() == n * hints.len()) by (nonlinear_arith)
        requires
            n == m + 1,
    ;
    if 0 <= j < trans.len() {
        if k == m {
            assert(graded_trans(non_taken, hints, trans, n)[k * trans.len() + j] == trans_round(trans, b)[j]);
        } else {
            assert(k * trans.len() + j < m * trans.len()) by (nonlinear_arith)
                requires
                    k < m,
                    0 <= j < trans.len(),
            ;
            assert(graded_trans(non_taken, hints, trans, n)[k * trans.len() + j] == gt0[k * trans.len() + j]);
        }
    }
    if 0 <= j < hints.len() {
        if k == m {
            assert(graded_hints(non_taken, hints, trans, n)[k * hints.len() + j] == hints_round(
                hints,
                generated_names(trans),
                b,
            )[j]);
        } else {
            assert(k * hints.len() + j < m * hints.len()) by (nonlinear_arith)
                requires
                    k < m,
                    0 <= j < hints.len(),
            ;
            assert(graded_hints(non_taken, hints, trans, n)[k * hints.len() + j] == gh0[k * hints.len() + j]);
        }
    }
}

/// Position `i` of a layout of `h` rows of `w` entries is entry `i % w`
/// of row `i / w`.
proof fn lemma_split_index(i: int, w: int, h: int)
    requires
        0 <= i < h * w,
        w > 0,
    ensures
        0 <= i / w < h,
        0 <= i % w < w,
        i == (i / w) * w + i % w,
{
    vstd::arithmetic::div_mod::lemma_fundamental_div_mod(i, w);
    let q = i / w;
    let r = i % w;
    assert(0 <= r < w);
    assert(w * q == q * w) by (nonlinear_arith);
    assert(0 <= q < h) by (nonlinear_arith)
        requires
            i == q * w + r,
            0 <= r < w,
            0 <= i < h * w,
            w > 0,
    ;
}

/// Grading `h` frames and `t` sets gives `h` times every set and `h` times
/// every frame: the `i`-th set given out is set `i % t` and the `i`-th
/// frame given out is frame `i % h`, unchanged but for the grade, and every
/// grade lies between one and one more than the number of entries of
/// `non_taken`.
pub proof fn lemma_graded_output(non_taken: Seq<Seq<char>>, hints: Seq<SpecHintFrame>, trans: Seq<SpecTransitionFrame>)
    requires
        non_taken.len() < usize::MAX,
    ensures
        graded_trans(non_taken, hints, trans, hints.len() as nat).len() == hints.len() * trans.len(),
        graded_hints(non_taken, hints, trans, hints.len() as nat).len() == hints.len() * hints.len(),
        forall|i: int|
            0 <= i < hints.len() * trans.len() ==> {
                let g = #[trigger] graded_trans(non_taken, hints, trans, hints.len() as nat)[i];
                &&& g.trans == trans[i % trans.len() as int].trans
                &&& 1 <= g.grade <= non_taken.len() + 1
            },
        forall|i: int|
            0 <= i < hints.len() * hints.len() ==> {
                let g = #[trigger] graded_hints(non_taken, hints, trans, hints.len() as nat)[i];
                let f = hints[i % hints.len() as int];
                &&& g.init == f.init
                &&& g.goal == f.goal
                &&& g.result == f.result
                &&& 1 <= g.grade <= non_taken.len() + 1
            },
{
    let h = hints.len() as nat;
    let t = trans.len() as int;
    if h == 0 {
        assert(graded_trans(non_taken, hints, trans, 0) =~= Seq::<SpecTransitionFrame>::empty());
        assert(graded_hints(non_taken, hints, trans, 0) =~= Seq::<SpecHintFrame>::empty());
    } else {
        lemma_graded_layout(non_taken, hints, trans, h, 0, 0);
        assert forall|i: int| 0 <= i < hints.len() * trans.len() implies {
            let g = #[trigger] graded_trans(non_taken, hints, trans, hints.len() as nat)[i];
            &&& g.trans == trans[i % trans.len() as int].trans
            &&& 1 <= g.grade <= non_taken.len() + 1
        } by {
            if t == 0 {
                assert(hints.len() * trans.len() == 0) by (nonlinear_arith)
                    requires
                        trans.len() == 0,
                ;
            } else {
                lemma_split_index(i, t, h as int);
                let k = (i / t) as nat;
                let j = i % t;
                lemma_graded_layout(non_taken, hints, trans, h, k, j);
                lemma_best_grade_bounds(non_taken, hints, k);
            }
        }
        assert forall|i: int| 0 <= i < hints.len() * hints.len() implies {
            let g = #[trigger] graded_hints(non_taken, hints, trans, hints.len() as nat)[i];
            let f = hints[i % hints.len() as int];
            &&& g.init == f.init
            &&& g.goal == f.goal
            &&& g.result == f.result
            &&& 1 <= g.grade <= non_taken.len() + 1
        } by {
            lemma_split_index(i, h as int, h as int);
            let k = (i / (h as int)) as nat;
            let j = i % (h as int);
            lemma_graded_layout(non_taken, hints, trans, h, k, j);
            lemma_best_grade_bounds(non_taken, hints, k);
        }
    }
}

/// In every round of the output, a frame whose plan uses every transition
/// of a non-empty set is graded no better than that set: it gets the same
/// grade, the best frame grade so far. In the last round that grade is at
/// least the frame's own: one more than the number of entries of
/// `non_taken` its plan uses.
pub proof fn lemma_frame_graded_like_its_set(
    non_taken: Seq<Seq<char>>,
    hints: Seq<SpecHintFrame>,
    trans: Seq<SpecTransitionFrame>,
    k: nat,
    j: int,
    f: int,
)
    requires
        non_taken.len() < usize::MAX,
        k < hints.len(),
        0 <= j < hints.len(),
        0 <= f < trans.len(),
        trans[f].trans.len() > 0,
        uses_all(hints[j].result.plan, trans[f].trans),
    ensures
        graded_hints(non_taken, hints, trans, hints.len() as nat)[k * hints.len() + j].grade == graded_trans(
            non_taken,
            hints,
            trans,
            hints.len() as nat,
        )[k * trans.len() + f].grade,
        k == hints.len() - 1 ==> graded_hints(non_taken, hints, trans, hints.len() as nat)[k * hints.len() + j].grade
            >= frame_grade(non_taken, hints[j].result.plan),
{
    let h = hints.len() as nat;
    lemma_graded_layout(non_taken, hints, trans, h, k, j);
    lemma_graded_layout(non_taken, hints, trans, h, k, f);
    lemma_best_grade_bounds(non_taken, hints, k);
    let names = generated_names(trans);
    let plan = hints[j].result.plan;
    let n0 = trans[f].trans[0].name;
    assert(plan.contains(n0));
    assert(names.contains(n0));
    let q = choose|q: int| 0 <= q < plan.len() && plan[q] == n0;
    assert(names.contains(plan[q]));
    assert(mentions(plan, names));
}

/// A frame whose plan uses any transition of any set, not only the first
/// of a set, is graded in every round as every set is: with the best frame
/// grade so far.
pub proof fn lemma_frame_using_a_generated_transition(
    non_taken: Seq<Seq<char>>,
    hints: Seq<SpecHintFrame>,
    trans: Seq<SpecTransitionFrame>,
    k: nat,
    j: int,
    f: int,
    t: int,
)
    requires
        non_taken.len() < usize::MAX,
        k < hints.len(),
        0 <= j < hints.len(),
        0 <= f < trans.len(),
        0 <= t < trans[f].trans.len(),
        hints[j].result.plan.contains(trans[f].trans[t].name),
    ensures
        graded_hints(non_taken, hints, trans, hints.len() as nat)[k * hints.len() + j].grade == graded_trans(
            non_taken,
            hints,
            trans,
            hints.len() as nat,
        )[k * trans.len() + f].grade,
        graded_hints(non_taken, hints, trans, hints.len() as nat)[k * hints.len() + j].grade == best_grade(
            non_taken,
            hints,
            k,
        ),
{
    let h = hints.len() as nat;
    lemma_graded_layout(non_taken, hints, trans, h, k, j);
    lemma_graded_layout(non_taken, hints, trans, h, k, f);
    lemma_best_grade_bounds(non_taken, hints, k);
    let names = generated_names(trans);
    let plan = hints[j].result.plan;
    let n0 = trans[f].trans[t].name;
    assert(names.contains(n0));
    let q = choose|q: int| 0 <= q < plan.len() && plan[q] == n0;
    assert(names.contains(plan[q]));
    assert(mentions(plan, names));
}

/// The grade of a plan.
fn plan_grade(non_taken: &Vec<String>, plan: &Vec<String>) -> (g: usize)
    requires
        non_taken.len() < usize::MAX,
    ensures
        g == frame_grade(strings_view(non_taken@), strings_view(plan@)),
{
    let ghost ntv = strings_view(non_taken@);
    let mut count: usize = 0;
    let mut i: usize = 0;
    while i < non_taken.len()
        invariant
            i <= non_taken.len(),
            non_taken.len() < usize::MAX,
            ntv == strings_view(non_taken@),
            count == used_count(ntv.take(i as int), strings_view(plan@)),
            count <= i,
        decreases non_taken.len() - i,
    {
        proof {
            assert(ntv.take(i + 1).drop_last() =~= ntv.take(i as int));
            assert(ntv.take(i + 1).last() == non_taken@[i as int]@);
        }
        if contains_string(plan, &non_taken[i]) {
            count = count + 1;
        }
        i = i + 1;
    }
    proof {
        assert(ntv.take(non_taken.len() as int) =~= ntv);
    }
    count + 1
}

/// The position of `name` in `names`, if it is there.
fn find_name(names: &Vec<String>, name: &String) -> (r: Option<usize>)
    ensures
        r matches Some(i) ==> i < names.len() && names@[i as int]@ == name@,
        r is None ==> forall|i: int| 0 <= i < names.len() ==> (#[trigger] names@[i])@ != name@,
{
    let mut i: usize = 0;
    while i < names.len()
        invariant
            i <= names.len(),
            forall|j: int| 0 <= j < i ==> (#[trigger] names@[j])@ != name@,
        decreases names.len() - i,
    {
        if names[i] == *name {
            return Some(i);
        }
        i = i + 1;
    }
    None
}

/// The names of the transitions at set positions before `f`, and of the
/// set at `f` before position `t`.
pub open spec fn names_before(trans: Seq<SpecTransitionFrame>, f: int, t: int) -> Set<Seq<char>> {
    Set::new(
        |n: Seq<char>|
            exists|f2: int, t2: int|
                0 <= f2 < trans.len() && 0 <= t2 < trans[f2].trans.len() && (f2 < f || (f2 == f && t2 < t))
                    && #[trigger] trans[f2].trans[t2].name == n,
    )
}

/// The score table while raising it to `now` for the names seen so far: it
/// holds each name once; each name of `seen` scores `now`, and every other
/// name, which only an earlier frame can have added, scores `earlier`.
spec fn table_ok(
    names: Seq<Seq<char>>,
    scores: Seq<usize>,
    seen: Set<Seq<char>>,
    all: Set<Seq<char>>,
    first: bool,
    earlier: nat,
    now: nat,
) -> bool {
    &&& names.len() == scores.len()
    &&& forall|i: int, j: int| 0 <= i < j < names.len() ==> #[trigger] names[i] != #[trigger] names[j]
    &&& forall|n: Seq<char>| #[trigger] names.contains(n) <==> (seen.contains(n) || (!first && all.contains(n)))
    &&& forall|i: int|
        0 <= i < names.len() ==> #[trigger] scores[i] == (if seen.contains(names[i]) {
            now
        } else {
            earlier
        })
}

/// Grades the frames and sets of a search. For each frame in turn, its
/// grade is one more than the number of entries of `non_taken_transitions`
/// its plan uses; every generated transition then scores the highest such
/// grade so far, and the output gets every set, graded by the highest score
/// of its transitions, followed by every frame, graded by the highest score
/// of a transition its plan uses, or one. `non_taken_transitions` is what
/// `step_2` returns for the model, `generated` what the search found.
pub fn hint_with_graded_transitions(non_taken_transitions: &Vec<String>, generated: &GeneratedHint) -> (r: GeneratedHint)
    requires
        non_taken_transitions.len() < usize::MAX,
        generated.frames.len() > 0 ==> forall|f: int|
            0 <= f < generated.trans.len() ==> (#[trigger] generated.trans@[f]).trans.len() > 0,
    ensures
        hint_frames_view(r.frames@) == graded_hints(
            strings_view(non_taken_transitions@),
            hint_frames_view(generated.frames@),
            transition_frames_view(generated.trans@),
            generated.frames.len() as nat,
        ),
        transition_frames_view(r.trans@) == graded_trans(
            strings_view(non_taken_transitions@),
            hint_frames_view(generated.frames@),
            transition_frames_view(generated.trans@),
            generated.frames.len() as nat,
        ),
{
    let ghost ntv = strings_view(non_taken_transitions@);
    let ghost hv = hint_frames_view(generated.frames@);
    let ghost tv = transition_frames_view(generated.trans@);
    let ghost all = generated_names(tv);
    let hints = &generated.frames;
    let sets = &generated.trans;
    let mut names: Vec<String> = Vec::new();
    let mut scores: Vec<usize> = Vec::new();
    let mut scored_hints: Vec<HintFrame> = Vec::new();
    let mut scored_trans: Vec<TransitionFrame> = Vec::new();
    let mut k: usize = 0;
    while k < hints.len()
        invariant
            k <= hints.len(),
            non_taken_transitions.len() < usize::MAX,
            hints.len() > 0 ==> forall|f: int| 0 <= f < sets.len() ==> (#[trigger] sets@[f]).trans.len() > 0,
            ntv == strings_view(non_taken_transitions@),
            hv == hint_frames_view(hints@),
            tv == transition_frames_view(sets@),
            all == generated_names(tv),
            k > 0 ==> table_ok(
                strings_view(names@),
                scores@,
                all,
                all,
                false,
                best_grade(ntv, hv, (k - 1) as nat),
                best_grade(ntv, hv, (k - 1) as nat),
            ),
            k == 0 ==> names.len() == 0 && scores.len() == 0,
            hint_frames_view(scored_hints@) == graded_hints(ntv, hv, tv, k as nat),
            transition_frames_view(scored_trans@) == graded_trans(ntv, hv, tv, k as nat),
        decreases hints.len() - k,
    {
        let frame_grade = plan_grade(non_taken_transitions, &hints[k].result.plan);
        let ghost best = best_grade(ntv, hv, k as nat);
        let ghost earlier: nat = if k == 0 { frame_grade as nat } else { best_grade(ntv, hv, (k - 1) as nat) };
        proof {
            assert(hv[k as int].result.plan == strings_view(hints@[k as int].result.plan@));
            lemma_best_grade_bounds(ntv, hv, k as nat);
            if k > 0 {
                lemma_best_grade_bounds(ntv, hv, (k - 1) as nat);
            }
            assert(best == if earlier >= frame_grade { earlier } else { frame_grade as nat });
        }
        // Raise every generated transition's score to the frame's grade.
        let mut f: usize = 0;
        while f < sets.len()
            invariant
                f <= sets.len(),
                tv == transition_frames_view(sets@),
                all == generated_names(tv),
                best <= usize::MAX,
                best == if earlier >= frame_grade { earlier } else { frame_grade as nat },
                k == 0 ==> earlier == frame_grade,
                table_ok(strings_view(names@), scores@, names_before(tv, f as int, 0), all, k == 0, earlier, best),
            decreases sets.len() - f,
        {
            let set = &sets[f].trans;
            let mut t: usize = 0;
            while t < set.len()
                invariant
                    t <= set.len(),
                    f < sets.len(),
                    set == &sets@[f as int].trans,
                    tv == transition_frames_view(sets@),
                    all == generated_names(tv),
                    best <= usize::MAX,
                    best == if earlier >= frame_grade { earlier } else { frame_grade as nat },
                    k == 0 ==> earlier == frame_grade,
                    table_ok(
                        strings_view(names@),
                        scores@,
                        names_before(tv, f as int, t as int),
                        all,
                        k == 0,
                        earlier,
                        best,
                    ),
                decreases set.len() - t,
            {
                let name = &set[t].name;
                let ghost n = name@;
                let ghost seen = names_before(tv, f as int, t as int);
                let ghost seen2 = names_before(tv, f as int, t + 1);
                let ghost nv0 = strings_view(names@);
                proof {
                    assert(tv[f as int].trans == transitions_view(set@));
                    assert(tv[f as int].trans[t as int] == set@[t as int]@);
                    assert(tv[f as int].trans[t as int].name == n);
                    assert(all.contains(n));
                    assert forall|x: Seq<char>| #[trigger] seen2.contains(x) == seen.insert(n).contains(x) by {
                        if seen2.contains(x) {
                            let (f2, t2) = choose|f2: int, t2: int|
                                0 <= f2 < tv.len() && 0 <= t2 < tv[f2].trans.len() && (f2 < f || (f2 == f && t2 < t + 1))
                                    && #[trigger] tv[f2].trans[t2].name == x;
                            if !(f2 == f && t2 == t) {
                                assert(seen.contains(x));
                            }
                        }
                        if seen.contains(x) {
                            let (f2, t2) = choose|f2: int, t2: int|
                                0 <= f2 < tv.len() && 0 <= t2 < tv[f2].trans.len() && (f2 < f || (f2 == f && t2 < t))
                                    && #[trigger] tv[f2].trans[t2].name == x;
                            assert(seen2.contains(x));
                        }
                        if x == n {
                            assert(seen2.contains(x));
                        }
                    }
                    assert(seen2 =~= seen.insert(n));
                }
                match find_name(&names, name) {
                    Some(i) => {
                        if scores[i] < frame_grade {
                            scores.set(i, frame_grade);
                        }
                        proof {
                            assert(nv0[i as int] == n);
                            assert(strings_view(names@) == nv0);
                            assert forall|j: int| 0 <= j < names.len() implies #[trigger] scores@[j] == (if seen2.contains(nv0[j]) {
                                best
                            } else {
                                earlier
                            }) by {
                                if j == i {
                                } else {
                                    assert(nv0[j] != n);
                                }
                            }
                        }
                    },
                    None => {
                        names.push(name.clone());
                        scores.push(frame_grade);
                        proof {
                            let nv = strings_view(names@);
                            assert(nv =~= nv0.push(n));
                            assert(!nv0.contains(n)) by {
                                if nv0.contains(n) {
                                    let j = choose|j: int| 0 <= j < nv0.len() && nv0[j] == n;
                                    assert(names@[j]@ == n);
                                }
                            }
                            assert(k == 0);
                            assert forall|n2: Seq<char>| #[trigger] nv.contains(n2) <==> (seen2.contains(n2) || (!(k == 0) && all.contains(n2))) by {
                                if nv.contains(n2) {
                                    let j = choose|j: int| 0 <= j < nv.len() && nv[j] == n2;
                                    if j < nv0.len() {
                                        assert(nv0[j] == n2);
                                        assert(nv0.contains(n2));
                                        assert(seen.contains(n2));
                                    } else {
                                        assert(n2 == n);
                                    }
                                }
                                if seen.contains(n2) {
                                    assert(nv0.contains(n2));
                                    let j = choose|j: int| 0 <= j < nv0.len() && nv0[j] == n2;
                                    assert(nv[j] == n2);
                                }
                                if n2 == n {
                                    assert(nv[nv.len() - 1] == n);
                                }
                            }
                            assert forall|a: int, b: int| 0 <= a < b < nv.len() implies #[trigger] nv[a] != #[trigger] nv[b] by {
                                if b == nv.len() - 1 {
                                    assert(nv[a] == nv0[a]);
                                    assert(nv0.contains(nv0[a]));
                                }
                            }
                            assert forall|j: int| 0 <= j < nv.len() implies #[trigger] scores@[j] == (if seen2.contains(nv[j]) {
                                best
                            } else {
                                earlier
                            }) by {
                                if j < nv0.len() {
                                    assert(nv[j] == nv0[j]);
                                    assert(nv0.contains(nv0[j]));
                                }
                            }
                        }
                    },
                }
                t = t + 1;
            }
            proof {
                assert(names_before(tv, f as int, set.len() as int) =~= names_before(tv, f + 1, 0));
            }
            f = f + 1;
        }
        proof {
            assert(names_before(tv, sets.len() as int, 0) =~= all);
        }
        // Grade every set by the highest score of its transitions.
        let mut f2: usize = 0;
        let ghost trans_before = transition_frames_view(scored_trans@);
        while f2 < sets.len()
            invariant
                f2 <= sets.len(),
                hints.len() > 0,
                forall|f: int| 0 <= f < sets.len() ==> (#[trigger] sets@[f]).trans.len() > 0,
                tv == transition_frames_view(sets@),
                all == generated_names(tv),
                best <= usize::MAX,
                table_ok(strings_view(names@), scores@, all, all, k == 0, earlier, best),
                transition_frames_view(scored_trans@) == trans_before + trans_round(tv, best).take(f2 as int),
            decreases sets.len() - f2,
        {
            let set = &sets[f2].trans;
            let mut grade: usize = 0;
            let mut t: usize = 0;
            while t < set.len()
                invariant
                    t <= set.len(),
                    f2 < sets.len(),
                    set == &sets@[f2 as int].trans,
                    tv == transition_frames_view(sets@),
                    all == generated_names(tv),
                    table_ok(strings_view(names@), scores@, all, all, k == 0, earlier, best),
                    t == 0 ==> grade == 0,
                    t > 0 ==> grade == best,
                decreases set.len() - t,
            {
                proof {
                    assert(tv[f2 as int].trans[t as int] == set@[t as int]@);
                    assert(all.contains(set@[t as int]@.name));
                    assert(strings_view(names@).contains(set@[t as int]@.name));
                }
                match find_name(&names, &set[t].name) {
                    Some(i) => {
                        proof {
                            assert(strings_view(names@)[i as int] == set@[t as int]@.name);
                        }
                        if grade < scores[i] {
                            grade = scores[i];
                        }
                    },
                    None => {
                        proof {
                            let j = choose|j: int| 0 <= j < names.len() && strings_view(names@)[j] == set@[t as int]@.name;
                            assert(names@[j]@ == set@[t as int]@.name);
                        }
                    },
                }
                t = t + 1;
            }
            let ghost sb = transition_frames_view(scored_trans@);
            let copied = copy_transitions(set);
            scored_trans.push(TransitionFrame { trans: copied, grade });
            proof {
                assert(set.len() > 0);
                assert(transition_frames_view(scored_trans@) =~= sb.push(
                    SpecTransitionFrame { trans: tv[f2 as int].trans, grade: best as usize },
                ));
                assert(trans_round(tv, best).take(f2 + 1) =~= trans_round(tv, best).take(f2 as int).push(
                    SpecTransitionFrame { trans: tv[f2 as int].trans, grade: best as usize },
                ));
            }
            f2 = f2 + 1;
        }
        proof {
            assert(trans_round(tv, best).take(sets.len() as int) =~= trans_round(tv, best));
        }
        // Grade every frame by the best score of a transition its plan uses.
        let mut j: usize = 0;
        let ghost hints_before = hint_frames_view(scored_hints@);
        while j < hints.len()
            invariant
                j <= hints.len(),
                hv == hint_frames_view(hints@),
                tv == transition_frames_view(sets@),
                all == generated_names(tv),
                best >= 1,
                best <= usize::MAX,
                table_ok(strings_view(names@), scores@, all, all, k == 0, earlier, best),
                hint_frames_view(scored_hints@) == hints_before + hints_round(hv, all, best).take(j as int),
            decreases hints.len() - j,
        {
            let plan = &hints[j].result.plan;
            let ghost pv = strings_view(plan@);
            let mut score: usize = 1;
            let mut i: usize = 0;
            while i < names.len()
                invariant
                    i <= names.len(),
                    plan == &hints@[j as int].result.plan,
                    pv == strings_view(plan@),
                    best >= 1,
                    best <= usize::MAX,
                    table_ok(strings_view(names@), scores@, all, all, k == 0, earlier, best),
                    score == if exists|m: int| 0 <= m < i && pv.contains(#[trigger] strings_view(names@)[m]) {
                        best
                    } else {
                        1
                    },
                decreases names.len() - i,
            {
                let ghost nv = strings_view(names@);
                if contains_string(plan, &names[i]) {
                    proof {
                        assert(nv.contains(nv[i as int]));
                        assert(scores@[i as int] == best);
                        assert(pv.contains(nv[i as int]));
                    }
                    if score < scores[i] {
                        score = scores[i];
                    }
                }
                proof {
                    if pv.contains(nv[i as int]) {
                        assert(exists|m: int| 0 <= m < i + 1 && pv.contains(#[trigger] nv[m]));
                    } else if exists|m: int| 0 <= m < i + 1 && pv.contains(#[trigger] nv[m]) {
                        let m = choose|m: int| 0 <= m < i + 1 && pv.contains(#[trigger] nv[m]);
                        assert(m < i);
                    }
                }
                i = i + 1;
            }
            proof {
                let nv = strings_view(names@);
                let hp = hv[j as int].result.plan;
                assert(hp == pv);
                if mentions(pv, all) {
                    let q = choose|q: int| 0 <= q < pv.len() && all.contains(#[trigger] pv[q]);
                    assert(nv.contains(pv[q]));
                    let m = choose|m: int| 0 <= m < nv.len() && nv[m] == pv[q];
                    assert(pv.contains(nv[m]));
                }
                if exists|m: int| 0 <= m < names.len() && pv.contains(#[trigger] nv[m]) {
                    let m = choose|m: int| 0 <= m < names.len() && pv.contains(#[trigger] nv[m]);
                    let q = choose|q: int| 0 <= q < pv.len() && pv[q] == nv[m];
                    assert(nv.contains(nv[m]));
                    assert(all.contains(pv[q]));
                }
            }
            let ghost hb = hint_frames_view(scored_hints@);
            let frame = HintFrame {
                init: hints[j].init.deep_copy(),
                goal: hints[j].goal.deep_copy(),
                result: hints[j].result.deep_copy(),
                grade: score,
            };
            scored_hints.push(frame);
            proof {
                let expected = hints_round(hv, all, best)[j as int];
                assert(hint_frames_view(scored_hints@) =~= hb.push(expected));
                assert(hints_round(hv, all, best).take(j + 1) =~= hints_round(hv, all, best).take(j as int).push(
                    expected,
                ));
            }
            j = j + 1;
        }
        proof {
            assert(hints_round(hv, all, best).take(hints.len() as int) =~= hints_round(hv, all, best));
            assert(graded_trans(ntv, hv, tv, (k + 1) as nat) == graded_trans(ntv, hv, tv, k as nat) + trans_round(tv, best));
            assert(graded_hints(ntv, hv, tv, (k + 1) as nat) == graded_hints(ntv, hv, tv, k as nat) + hints_round(
                hv,
                all,
                best,
            ));
            assert forall|i: int| 0 <= i < names.len() implies #[trigger] scores@[i] == best by {
                assert(strings_view(names@).contains(strings_view(names@)[i]));
                assert(all.contains(strings_view(names@)[i]));
            }
        }
        k = k + 1;
    }
    GeneratedHint { frames: scored_hints, trans: scored_trans }
}

} // verus!
