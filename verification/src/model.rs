//! The planning domain: values, variables, predicates, transitions, states
//! and planner results, each with a mathematical view in which strings are
//! character sequences and vectors are sequences.
use vstd::prelude::*;

verus! {

broadcast use vstd::std_specs::vec::axiom_vec_index_decreases;

/// The type a variable ranges over.
#[derive(Clone, Copy, Debug, PartialEq, Eq, Structural)]
pub enum ValueType {
    Bool,
    Int32,
    Float32,
    String,
    Time,
    Array,
    Unknown,
}

/// A point in time: its distance from the Unix epoch, in whole seconds and
/// the nanoseconds beyond them, and on which side of the epoch it lies. The
/// epoch itself lies after it.
#[derive(Clone, Copy, Debug, PartialEq, Eq, Structural)]
pub struct TimePoint {
    pub after_epoch: bool,
    pub secs: u64,
    pub nanos: u32,
}

/// A value a variable can hold. Floating-point values are not modelled.
#[derive(Debug)]
pub enum Value {
    Bool(bool),
    Int32(i32),
    String(String),
    Time(TimePoint),
    Array(ValueType, Vec<Value>),
    Unknown,
}

pub enum SpecValue {
    Bool(bool),
    Int32(i32),
    String(Seq<char>),
    Time(TimePoint),
    Array(ValueType, Seq<SpecValue>),
    Unknown,
}

/// The views of the first `n` values of `vs`.
pub open spec fn values_prefix_view(vs: &Vec<Value>, n: nat) -> Seq<SpecValue>
    decreases vs, n,
{
    if n == 0 || n > vs.len() {
        Seq::empty()
    } else {
        values_prefix_view(vs, (n - 1) as nat).push(vs[n - 1].view())
    }
}

impl View for Value {
    type V = SpecValue;

    open spec fn view(&self) -> SpecValue
        decreases self, 0nat,
    {
        match self {
            Value::Bool(b) => SpecValue::Bool(*b),
            Value::Int32(i) => SpecValue::Int32(*i),
            Value::String(s) => SpecValue::String(s@),
            Value::Time(t) => SpecValue::Time(*t),
            Value::Array(t, vs) => SpecValue::Array(*t, values_prefix_view(vs, vs.len() as nat)),
            Value::Unknown => SpecValue::Unknown,
        }
    }
}

pub proof fn lemma_values_prefix_view(vs: &Vec<Value>, n: nat)
    requires
        n <= vs.len(),
    ensures
        values_prefix_view(vs, n).len() == n,
        forall|j: int| 0 <= j < n ==> #[trigger] values_prefix_view(vs, n)[j] == vs@[j]@,
    decreases n,
{
    if n > 0 {
        lemma_values_prefix_view(vs, (n - 1) as nat);
        assert(values_prefix_view(vs, n) == values_prefix_view(vs, (n - 1) as nat).push(vs@[n - 1]@));
    } else {
        assert(values_prefix_view(vs, n) == Seq::<SpecValue>::empty());
    }
}

/// The views of all values of `vs` are their sequence's view.
pub proof fn lemma_values_view(vs: &Vec<Value>)
    ensures
        values_prefix_view(vs, vs.len() as nat) == values_view(vs@),
{
    lemma_values_prefix_view(vs, vs.len() as nat);
    assert(values_prefix_view(vs, vs.len() as nat) =~= values_view(vs@));
}

impl Value {
    pub fn deep_copy(&self) -> (r: Value)
        ensures
            r@ == self@,
        decreases self,
    {
        match self {
            Value::Bool(b) => Value::Bool(*b),
            Value::Int32(i) => Value::Int32(*i),
            Value::String(s) => Value::String(s.clone()),
            Value::Time(t) => Value::Time(*t),
            Value::Array(t, vs) => {
                let r = Self::copy_all(vs);
                proof {
                    lemma_values_view(vs);
                    lemma_values_view(&r);
                }
                Value::Array(*t, r)
            },
            Value::Unknown => Value::Unknown,
        }
    }

    fn copy_all(vs: &Vec<Value>) -> (r: Vec<Value>)
        ensures
            values_view(r@) == values_view(vs@),
        decreases vs,
    {
        let mut r: Vec<Value> = Vec::new();
        let mut i: usize = 0;
        while i < vs.len()
            invariant
                i <= vs.len(),
                r.len() == i,
                forall|j: int| 0 <= j < i ==> r@[j]@ == vs@[j]@,
            decreases vs.len() - i,
        {
            let c = vs[i].deep_copy();
            r.push(c);
            i = i + 1;
        }
        proof {
            assert(values_view(r@) =~= values_view(vs@));
        }
        r
    }

    /// Whether two values are the same.
    pub fn same(&self, other: &Value) -> (r: bool)
        ensures
            r == (self@ == other@),
        decreases self,
    {
        match (self, other) {
            (Value::Bool(a), Value::Bool(b)) => *a == *b,
            (Value::Int32(a), Value::Int32(b)) => *a == *b,
            (Value::String(a), Value::String(b)) => *a == *b,
            (Value::Time(a), Value::Time(b)) => *a == *b,
            (Value::Array(ta, a), Value::Array(tb, b)) => {
                proof {
                    lemma_values_view(a);
                    lemma_values_view(b);
                }
                *ta == *tb && Self::same_all(a, b)
            },
            (Value::Unknown, Value::Unknown) => true,
            _ => false,
        }
    }

    fn same_all(a: &Vec<Value>, b: &Vec<Value>) -> (r: bool)
        ensures
            r == (values_view(a@) == values_view(b@)),
        decreases a,
    {
        if a.len() != b.len() {
            proof {
                assert(values_view(a@).len() != values_view(b@).len());
            }
            return false;
        }
        let mut i: usize = 0;
        while i < a.len()
            invariant
                a.len() == b.len(),
                i <= a.len(),
                forall|j: int| 0 <= j < i ==> a@[j]@ == b@[j]@,
            decreases a.len() - i,
        {
            if !a[i].same(&b[i]) {
                proof {
                    assert(values_view(a@)[i as int] != values_view(b@)[i as int]);
                }
                return false;
            }
            i = i + 1;
        }
        proof {
            assert(values_view(a@) =~= values_view(b@));
        }
        true
    }
}

/// The view of a sequence of values.
pub open spec fn values_view(vs: Seq<Value>) -> Seq<SpecValue> {
    vs.map_values(|v: Value| v@)
}

pub fn copy_values(vs: &Vec<Value>) -> (r: Vec<Value>)
    ensures
        values_view(r@) == values_view(vs@),
{
    Value::copy_all(vs)
}

/// Whether two sequences of values agree position by position.
pub fn same_values(a: &Vec<Value>, b: &Vec<Value>) -> (r: bool)
    ensures
        r == (values_view(a@) == values_view(b@)),
{
    Value::same_all(a, b)
}

/// A named variable with the values it may take.
#[derive(Debug)]
pub struct Variable {
    pub name: String,
    pub value_type: ValueType,
    pub domain: Vec<Value>,
}

pub struct SpecVariable {
    pub name: Seq<char>,
    pub value_type: ValueType,
    pub domain: Seq<SpecValue>,
}

impl View for Variable {
    type V = SpecVariable;

    open spec fn view(&self) -> SpecVariable {
        SpecVariable {
            name: self.name@,
            value_type: self.value_type,
            domain: values_view(self.domain@),
        }
    }
}

impl Variable {
    pub fn deep_copy(&self) -> (r: Variable)
        ensures
            r@ == self@,
    {
        Variable {
            name: self.name.clone(),
            value_type: self.value_type,
            domain: copy_values(&self.domain),
        }
    }
}

impl Variable {
    /// Whether two variables are the same: same name, type and domain.
    pub fn same(&self, other: &Variable) -> (r: bool)
        ensures
            r == (self@ == other@),
    {
        self.name == other.name && self.value_type == other.value_type && same_values(
            &self.domain,
            &other.domain,
        )
    }
}

/// The view of a sequence of variables.
pub open spec fn variables_view(vs: Seq<Variable>) -> Seq<SpecVariable> {
    vs.map_values(|v: Variable| v@)
}

/// Either side of a comparison: a variable or a constant value.
#[derive(Debug)]
pub enum Common {
    Variable(Variable),
    Value(Value),
}

pub enum SpecCommon {
    Variable(SpecVariable),
    Value(SpecValue),
}

impl View for Common {
    type V = SpecCommon;

    open spec fn view(&self) -> SpecCommon {
        match self {
            Common::Variable(v) => SpecCommon::Variable(v@),
            Common::Value(v) => SpecCommon::Value(v@),
        }
    }
}

impl Common {
    pub fn deep_copy(&self) -> (r: Common)
        ensures
            r@ == self@,
    {
        match self {
            Common::Variable(v) => Common::Variable(v.deep_copy()),
            Common::Value(v) => Common::Value(v.deep_copy()),
        }
    }
}

impl Common {
    /// Whether two sides of a comparison are the same.
    pub fn same(&self, other: &Common) -> (r: bool)
        ensures
            r == (self@ == other@),
    {
        match (self, other) {
            (Common::Variable(a), Common::Variable(b)) => a.same(b),
            (Common::Value(a), Common::Value(b)) => a.same(b),
            _ => false,
        }
    }
}

/// A condition over a state.
#[derive(Debug)]
pub enum Predicate {
    True,
    False,
    Not(Box<Predicate>),
    And(Vec<Predicate>),
    Or(Vec<Predicate>),
    Eq(Common, Common),
    Neq(Common, Common),
}

pub enum SpecPredicate {
    True,
    False,
    Not(Box<SpecPredicate>),
    And(Seq<SpecPredicate>),
    Or(Seq<SpecPredicate>),
    Eq(SpecCommon, SpecCommon),
    Neq(SpecCommon, SpecCommon),
}

/// The views of the first `n` predicates of `ps`.
pub open spec fn predicates_prefix_view(ps: &Vec<Predicate>, n: nat) -> Seq<SpecPredicate>
    decreases ps, n,
{
    if n == 0 || n > ps.len() {
        Seq::empty()
    } else {
        predicates_prefix_view(ps, (n - 1) as nat).push(ps[n - 1].view())
    }
}

impl View for Predicate {
    type V = SpecPredicate;

    open spec fn view(&self) -> SpecPredicate
        decreases self, 0nat,
    {
        match self {
            Predicate::True => SpecPredicate::True,
            Predicate::False => SpecPredicate::False,
            Predicate::Not(p) => SpecPredicate::Not(Box::new((**p).view())),
            Predicate::And(ps) => SpecPredicate::And(predicates_prefix_view(ps, ps.len() as nat)),
            Predicate::Or(ps) => SpecPredicate::Or(predicates_prefix_view(ps, ps.len() as nat)),
            Predicate::Eq(a, b) => SpecPredicate::Eq(a@, b@),
            Predicate::Neq(a, b) => SpecPredicate::Neq(a@, b@),
        }
    }
}

/// The views of all predicates of `ps`.
pub open spec fn predicates_view(ps: &Vec<Predicate>) -> Seq<SpecPredicate> {
    predicates_prefix_view(ps, ps.len() as nat)
}

pub proof fn lemma_predicates_prefix_view(ps: &Vec<Predicate>, n: nat)
    requires
        n <= ps.len(),
    ensures
        predicates_prefix_view(ps, n).len() == n,
        forall|j: int| 0 <= j < n ==> #[trigger] predicates_prefix_view(ps, n)[j] == ps@[j]@,
    decreases n,
{
    if n > 0 {
        lemma_predicates_prefix_view(ps, (n - 1) as nat);
        assert(predicates_prefix_view(ps, n) == predicates_prefix_view(ps, (n - 1) as nat).push(
            ps@[n - 1]@,
        ));
    } else {
        assert(predicates_prefix_view(ps, n) == Seq::<SpecPredicate>::empty());
    }
}

pub proof fn lemma_predicates_view(ps: &Vec<Predicate>)
    ensures
        predicates_view(ps).len() == ps.len(),
        forall|j: int| 0 <= j < ps.len() ==> #[trigger] predicates_view(ps)[j] == ps@[j]@,
{
    lemma_predicates_prefix_view(ps, ps.len() as nat);
}

impl Predicate {
    pub fn deep_copy(&self) -> (r: Predicate)
        ensures
            r@ == self@,
        decreases self,
    {
        match self {
            Predicate::True => Predicate::True,
            Predicate::False => Predicate::False,
            Predicate::Not(p) => Predicate::Not(Box::new((**p).deep_copy())),
            Predicate::And(ps) => {
                let r = Self::copy_all(ps);
                Predicate::And(r)
            },
            Predicate::Or(ps) => {
                let r = Self::copy_all(ps);
                Predicate::Or(r)
            },
            Predicate::Eq(a, b) => Predicate::Eq(a.deep_copy(), b.deep_copy()),
            Predicate::Neq(a, b) => Predicate::Neq(a.deep_copy(), b.deep_copy()),
        }
    }

    /// Whether two predicates are the same, term by term.
    pub fn same(&self, other: &Predicate) -> (r: bool)
        ensures
            r == (self@ == other@),
        decreases self,
    {
        match (self, other) {
            (Predicate::True, Predicate::True) => true,
            (Predicate::False, Predicate::False) => true,
            (Predicate::Not(a), Predicate::Not(b)) => (**a).same(&**b),
            (Predicate::And(a), Predicate::And(b)) => Self::same_all(a, b),
            (Predicate::Or(a), Predicate::Or(b)) => Self::same_all(a, b),
            (Predicate::Eq(a1, a2), Predicate::Eq(b1, b2)) => a1.same(b1) && a2.same(b2),
            (Predicate::Neq(a1, a2), Predicate::Neq(b1, b2)) => a1.same(b1) && a2.same(b2),
            _ => false,
        }
    }

    fn same_all(a: &Vec<Predicate>, b: &Vec<Predicate>) -> (r: bool)
        ensures
            r == (predicates_view(a) == predicates_view(b)),
        decreases a,
    {
        proof {
            lemma_predicates_view(a);
            lemma_predicates_view(b);
        }
        if a.len() != b.len() {
            return false;
        }
        let mut i: usize = 0;
        while i < a.len()
            invariant
                a.len() == b.len(),
                i <= a.len(),
                predicates_view(a).len() == a.len(),
                predicates_view(b).len() == b.len(),
                forall|j: int| 0 <= j < a.len() ==> #[trigger] predicates_view(a)[j] == a@[j]@,
                forall|j: int| 0 <= j < b.len() ==> #[trigger] predicates_view(b)[j] == b@[j]@,
                forall|j: int| 0 <= j < i ==> a@[j]@ == b@[j]@,
            decreases a.len() - i,
        {
            if !a[i].same(&b[i]) {
                proof {
                    assert(predicates_view(a)[i as int] != predicates_view(b)[i as int]);
                }
                return false;
            }
            i = i + 1;
        }
        proof {
            assert(predicates_view(a) =~= predicates_view(b));
        }
        true
    }

    fn copy_all(ps: &Vec<Predicate>) -> (r: Vec<Predicate>)
        ensures
            predicates_view(&r) == predicates_view(ps),
        decreases ps,
    {
        let mut r: Vec<Predicate> = Vec::new();
        let mut i: usize = 0;
        while i < ps.len()
            invariant
                i <= ps.len(),
                r.len() == i,
                forall|j: int| 0 <= j < i ==> r@[j]@ == ps@[j]@,
            decreases ps.len() - i,
        {
            let c = ps[i].deep_copy();
            r.push(c);
            i = i + 1;
        }
        proof {
            lemma_predicates_view(&r);
            lemma_predicates_view(ps);
            assert(predicates_view(&r) =~= predicates_view(ps));
        }
        r
    }
}

/// An assignment of a new value, or of another variable's value, to a variable.
#[derive(Debug)]
pub struct Action {
    pub var: Variable,
    pub common: Common,
}

pub struct SpecAction {
    pub var: SpecVariable,
    pub common: SpecCommon,
}

impl View for Action {
    type V = SpecAction;

    open spec fn view(&self) -> SpecAction {
        SpecAction { var: self.var@, common: self.common@ }
    }
}

impl Action {
    pub fn deep_copy(&self) -> (r: Action)
        ensures
            r@ == self@,
    {
        Action { var: self.var.deep_copy(), common: self.common.deep_copy() }
    }
}

impl Action {
    /// Whether two actions are the same.
    pub fn same(&self, other: &Action) -> (r: bool)
        ensures
            r == (self@ == other@),
    {
        self.var.same(&other.var) && self.common.same(&other.common)
    }
}

/// The view of a sequence of actions.
pub open spec fn actions_view(acts: Seq<Action>) -> Seq<SpecAction> {
    acts.map_values(|a: Action| a@)
}

/// A named, guarded step of the model.
#[derive(Debug)]
pub struct Transition {
    pub name: String,
    pub guard: Predicate,
    pub actions: Vec<Action>,
}

pub struct SpecTransition {
    pub name: Seq<char>,
    pub guard: SpecPredicate,
    pub actions: Seq<SpecAction>,
}

impl View for Transition {
    type V = SpecTransition;

    open spec fn view(&self) -> SpecTransition {
        SpecTransition {
            name: self.name@,
            guard: self.guard@,
            actions: actions_view(self.actions@),
        }
    }
}

impl Transition {
    pub fn deep_copy(&self) -> (r: Transition)
        ensures
            r@ == self@,
    {
        let mut actions: Vec<Action> = Vec::new();
        let mut i: usize = 0;
        while i < self.actions.len()
            invariant
                i <= self.actions.len(),
                actions.len() == i,
                forall|j: int| 0 <= j < i ==> actions@[j]@ == self.actions@[j]@,
            decreases self.actions.len() - i,
        {
            actions.push(self.actions[i].deep_copy());
            i = i + 1;
        }
        proof {
            assert(actions_view(actions@) =~= actions_view(self.actions@));
        }
        Transition { name: self.name.clone(), guard: self.guard.deep_copy(), actions }
    }
}

impl Transition {
    /// Whether two transitions have the same guard and the same actions,
    /// whatever their names.
    pub fn same_step(&self, other: &Transition) -> (r: bool)
        ensures
            r == (self@.guard == other@.guard && self@.actions == other@.actions),
    {
        if !self.guard.same(&other.guard) {
            return false;
        }
        if self.actions.len() != other.actions.len() {
            proof {
                assert(actions_view(self.actions@).len() != actions_view(other.actions@).len());
            }
            return false;
        }
        let mut i: usize = 0;
        while i < self.actions.len()
            invariant
                self.actions.len() == other.actions.len(),
                i <= self.actions.len(),
                forall|j: int| 0 <= j < i ==> self.actions@[j]@ == other.actions@[j]@,
            decreases self.actions.len() - i,
        {
            if !self.actions[i].same(&other.actions[i]) {
                proof {
                    assert(actions_view(self.actions@)[i as int] != actions_view(other.actions@)[i as int]);
                }
                return false;
            }
            i = i + 1;
        }
        proof {
            assert(actions_view(self.actions@) =~= actions_view(other.actions@));
        }
        true
    }
}

/// The view of a sequence of transitions.
pub open spec fn transitions_view(ts: Seq<Transition>) -> Seq<SpecTransition> {
    ts.map_values(|t: Transition| t@)
}

pub fn copy_transitions(ts: &Vec<Transition>) -> (r: Vec<Transition>)
    ensures
        transitions_view(r@) == transitions_view(ts@),
{
    let mut r: Vec<Transition> = Vec::new();
    let mut i: usize = 0;
    while i < ts.len()
        invariant
            i <= ts.len(),
            r.len() == i,
            forall|j: int| 0 <= j < i ==> r@[j]@ == ts@[j]@,
        decreases ts.len() - i,
    {
        r.push(ts[i].deep_copy());
        i = i + 1;
    }
    proof {
        assert(transitions_view(r@) =~= transitions_view(ts@));
    }
    r
}

/// A state: the value of each variable.
#[derive(Debug)]
pub struct State {
    pub state: Vec<(Variable, Value)>,
}

/// The view of a state: its variable and value pairs, in order.
pub open spec fn pairs_view(ps: Seq<(Variable, Value)>) -> Seq<(SpecVariable, SpecValue)> {
    ps.map_values(|p: (Variable, Value)| (p.0@, p.1@))
}

impl View for State {
    type V = Seq<(SpecVariable, SpecValue)>;

    open spec fn view(&self) -> Seq<(SpecVariable, SpecValue)> {
        pairs_view(self.state@)
    }
}

impl State {
    pub fn deep_copy(&self) -> (r: State)
        ensures
            r@ == self@,
    {
        let mut pairs: Vec<(Variable, Value)> = Vec::new();
        let mut i: usize = 0;
        while i < self.state.len()
            invariant
                i <= self.state.len(),
                pairs.len() == i,
                forall|j: int|
                    0 <= j < i ==> (#[trigger] pairs@[j]).0@ == self.state@[j].0@ && pairs@[j].1@
                        == self.state@[j].1@,
            decreases self.state.len() - i,
        {
            let var = self.state[i].0.deep_copy();
            let val = self.state[i].1.deep_copy();
            pairs.push((var, val));
            i = i + 1;
        }
        proof {
            assert(pairs_view(pairs@) =~= pairs_view(self.state@));
        }
        State { state: pairs }
    }
}

/// The outcome of a planner run: whether the goal was reached, and the
/// names of the transitions of the plan that reaches it.
#[derive(Debug)]
pub struct PlanningResult {
    pub found: bool,
    pub length: usize,
    pub plan: Vec<String>,
}

pub struct SpecPlanningResult {
    pub found: bool,
    pub length: usize,
    pub plan: Seq<Seq<char>>,
}

/// The view of a sequence of strings.
pub open spec fn strings_view(ss: Seq<String>) -> Seq<Seq<char>> {
    ss.map_values(|s: String| s@)
}

impl View for PlanningResult {
    type V = SpecPlanningResult;

    open spec fn view(&self) -> SpecPlanningResult {
        SpecPlanningResult { found: self.found, length: self.length, plan: strings_view(self.plan@) }
    }
}

pub fn copy_strings(ss: &Vec<String>) -> (r: Vec<String>)
    ensures
        strings_view(r@) == strings_view(ss@),
{
    let mut r: Vec<String> = Vec::new();
    let mut i: usize = 0;
    while i < ss.len()
        invariant
            i <= ss.len(),
            r.len() == i,
            forall|j: int| 0 <= j < i ==> r@[j]@ == ss@[j]@,
        decreases ss.len() - i,
    {
        r.push(ss[i].clone());
        i = i + 1;
    }
    proof {
        assert(strings_view(r@) =~= strings_view(ss@));
    }
    r
}

impl PlanningResult {
    pub fn deep_copy(&self) -> (r: PlanningResult)
        ensures
            r@ == self@,
    {
        PlanningResult { found: self.found, length: self.length, plan: copy_strings(&self.plan) }
    }
}

/// Whether `name` occurs in `names`.
pub fn contains_string(names: &Vec<String>, name: &String) -> (r: bool)
    ensures
        r == strings_view(names@).contains(name@),
{
    let mut i: usize = 0;
    while i < names.len()
        invariant
            i <= names.len(),
            forall|j: int| 0 <= j < i ==> names@[j]@ != name@,
        decreases names.len() - i,
    {
        if names[i] == *name {
            proof {
                assert(strings_view(names@)[i as int] == name@);
            }
            return true;
        }
        i = i + 1;
    }
    proof {
        if strings_view(names@).contains(name@) {
            let k = choose|k: int| 0 <= k < names.len() && strings_view(names@)[k] == name@;
            assert(names@[k]@ == name@);
        }
    }
    false
}

} // verus!
