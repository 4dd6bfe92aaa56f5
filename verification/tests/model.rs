use sp_hints::model::{TimePoint, Value, ValueType, Variable};

fn t(after_epoch: bool, secs: u64, nanos: u32) -> Value {
    Value::Time(TimePoint { after_epoch, secs, nanos })
}

#[test]
fn values_compare_by_content() {
    assert!(Value::String("a".into()).same(&Value::String("a".into())));
    assert!(!Value::String("a".into()).same(&Value::String("b".into())));
    assert!(!Value::Int32(1).same(&Value::Bool(true)));
    assert!(t(true, 5, 7).same(&t(true, 5, 7)));
    assert!(!t(true, 5, 7).same(&t(false, 5, 7)));
    assert!(!t(true, 5, 7).same(&t(true, 5, 8)));
    let a = Value::Array(ValueType::Int32, vec![Value::Int32(1), Value::Int32(2)]);
    let b = Value::Array(ValueType::Int32, vec![Value::Int32(1), Value::Int32(2)]);
    let c = Value::Array(ValueType::Int32, vec![Value::Int32(2), Value::Int32(1)]);
    let d = Value::Array(ValueType::String, vec![Value::Int32(1), Value::Int32(2)]);
    let nested = Value::Array(ValueType::Array, vec![a.deep_copy(), Value::Array(ValueType::Bool, vec![])]);
    assert!(a.same(&b));
    assert!(!a.same(&c));
    assert!(!a.same(&d));
    assert!(nested.same(&nested.deep_copy()));
    assert!(!nested.same(&a));
}

#[test]
fn copies_keep_every_value() {
    let v = Variable {
        name: "when".into(),
        value_type: ValueType::Time,
        domain: vec![t(true, 1, 0), t(false, 2, 3), Value::Array(ValueType::Bool, vec![Value::Bool(true)])],
    };
    let w = v.deep_copy();
    assert!(v.same(&w));
    assert_eq!(w.domain.len(), 3);
    assert!(w.domain[1].same(&t(false, 2, 3)));
}

#[test]
fn time_and_array_values_are_drawn_like_others() {
    let v = Variable {
        name: "when".into(),
        value_type: ValueType::Time,
        domain: vec![t(true, 1, 0), t(true, 2, 0)],
    };
    let gts = sp_hints::generated::generate_random_transitions("ns", &vec![v], 2, 100);
    assert!(gts.len() <= 2);
}
