use sp_hints::generated::{GeneratedHint, HintFrame, TransitionFrame};
use sp_hints::graded::hint_with_graded_transitions;
use sp_hints::model::{PlanningResult, Predicate, State, Transition};

fn frame(plan: &[&str]) -> HintFrame {
    HintFrame {
        init: State { state: vec![] },
        goal: Predicate::True,
        result: PlanningResult { found: true, length: plan.len(), plan: plan.iter().map(|s| s.to_string()).collect() },
        grade: 0,
    }
}

fn set(names: &[&str]) -> TransitionFrame {
    TransitionFrame {
        trans: names
            .iter()
            .map(|n| Transition { name: n.to_string(), guard: Predicate::True, actions: vec![] })
            .collect(),
        grade: 0,
    }
}

fn names(v: &[&str]) -> Vec<String> {
    v.iter().map(|s| s.to_string()).collect()
}

#[test]
fn grades_follow_the_best_frame_so_far() {
    // frame 0 uses one untriggered transition, frame 1 two, frame 2 none
    let non_taken = names(&["b_to_c", "c_to_d", "turn_off"]);
    let generated = GeneratedHint {
        frames: vec![
            frame(&["turn_on", "b_to_c", "g_1"]),
            frame(&["c_to_d", "turn_off"]),
            frame(&["g_1", "a_to_b"]),
        ],
        trans: vec![set(&["g_1"]), set(&["g_2", "g_3"])],
    };
    let graded = hint_with_graded_transitions(&non_taken, &generated);
    // every set and every frame, once per frame
    assert_eq!(graded.trans.len(), 3 * 2);
    assert_eq!(graded.frames.len(), 3 * 3);
    // best grades so far: 2, then 3, then 3
    let trans_grades: Vec<usize> = graded.trans.iter().map(|t| t.grade).collect();
    assert_eq!(trans_grades, vec![2, 2, 3, 3, 3, 3]);
    // a frame whose plan uses a generated transition gets the best grade,
    // the others one
    let frame_grades: Vec<usize> = graded.frames.iter().map(|f| f.grade).collect();
    assert_eq!(frame_grades, vec![2, 1, 2, 3, 1, 3, 3, 1, 3]);
    // nothing but the grades changes
    for k in 0..3 {
        for j in 0..3 {
            assert_eq!(graded.frames[k * 3 + j].result.plan, generated.frames[j].result.plan);
        }
        for j in 0..2 {
            assert_eq!(graded.trans[k * 2 + j].trans.len(), generated.trans[j].trans.len());
            assert_eq!(graded.trans[k * 2 + j].trans[0].name, generated.trans[j].trans[0].name);
        }
    }
}

#[test]
fn repeated_untriggered_entries_count_each_time() {
    let non_taken = names(&["x", "x"]);
    let generated = GeneratedHint { frames: vec![frame(&["x", "g"])], trans: vec![set(&["g"])] };
    let graded = hint_with_graded_transitions(&non_taken, &generated);
    assert_eq!(graded.trans[0].grade, 3);
    assert_eq!(graded.frames[0].grade, 3);
}

#[test]
fn without_sets_every_frame_grades_one() {
    let non_taken = names(&["x"]);
    let generated = GeneratedHint { frames: vec![frame(&["x"]), frame(&[])], trans: vec![] };
    let graded = hint_with_graded_transitions(&non_taken, &generated);
    assert!(graded.trans.is_empty());
    let frame_grades: Vec<usize> = graded.frames.iter().map(|f| f.grade).collect();
    assert_eq!(frame_grades, vec![1, 1, 1, 1]);
}

#[test]
fn without_frames_nothing_is_graded() {
    let generated = GeneratedHint { frames: vec![], trans: vec![set(&[])] };
    let graded = hint_with_graded_transitions(&vec![], &generated);
    assert!(graded.frames.is_empty());
    assert!(graded.trans.is_empty());
}
