# sp_hints

Hints for finding the fault in a transition model of a planning domain,
verified with Verus.

- `model`: values, variables, predicates, transitions, states and planner
  answers, each with a mathematical view.
- `untriggered`: `step_2`, the transitions that no solved scenario uses,
  sorted.
- `generated`: `generate_random_transitions`, and `GeneratedSearch`, the
  search for random transition sets that make every scenario solvable.
- `graded`: `hint_with_graded_transitions`, grading the frames and sets a
  search found.
- `anomalies`: sampling distinct states, `AnomalySearch`, the pairing of
  sampled initial and goal states, and the coverage counts.
- `text`: name order, sorted name sets and decimal numbering.

The planner itself (`simple_transition_planner` of `micro_sp`) is not part of
the library: the searches hand out what is to be planned and take the
planner's answers. `app/` runs the planner and holds the functions with the
planner in the loop.
