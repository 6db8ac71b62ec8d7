use limbo_engine::{Cmp, Value, value_cmp};

fn f(x: f64) -> Value {
    Value::Float(x.to_bits())
}

#[test]
fn rank_order_null_numeric_text_blob() {
    let null = Value::Null;
    let int = Value::Integer(0);
    let txt = Value::Text(b"a".to_vec());
    let blob = Value::Blob(b"a".to_vec());
    assert_eq!(value_cmp(&null, &int), Cmp::Less);
    assert_eq!(value_cmp(&int, &txt), Cmp::Less);
    assert_eq!(value_cmp(&txt, &blob), Cmp::Less);
    assert_eq!(value_cmp(&blob, &null), Cmp::Greater);
    assert_eq!(value_cmp(&null, &Value::Null), Cmp::Equal);
}

#[test]
fn integer_order() {
    assert_eq!(value_cmp(&Value::Integer(-3), &Value::Integer(7)), Cmp::Less);
    assert_eq!(value_cmp(&Value::Integer(7), &Value::Integer(7)), Cmp::Equal);
    assert_eq!(
        value_cmp(&Value::Integer(i64::MAX), &Value::Integer(i64::MIN)),
        Cmp::Greater
    );
}

#[test]
fn float_order_by_value() {
    assert_eq!(value_cmp(&f(1.5), &f(2.5)), Cmp::Less);
    assert_eq!(value_cmp(&f(-1.5), &f(1.5)), Cmp::Less);
    assert_eq!(value_cmp(&f(-0.0), &f(0.0)), Cmp::Equal);
    assert_eq!(value_cmp(&f(f64::INFINITY), &f(1e308)), Cmp::Greater);
    assert_eq!(value_cmp(&f(f64::NEG_INFINITY), &f(-1e308)), Cmp::Less);
    assert_eq!(value_cmp(&f(f64::NAN), &f(f64::NEG_INFINITY)), Cmp::Less);
    assert_eq!(value_cmp(&f(f64::NAN), &f(f64::NAN)), Cmp::Equal);
}

#[test]
fn integer_float_cross_comparison_is_exact() {
    assert_eq!(value_cmp(&Value::Integer(2), &f(2.5)), Cmp::Less);
    assert_eq!(value_cmp(&Value::Integer(3), &f(2.5)), Cmp::Greater);
    assert_eq!(value_cmp(&Value::Integer(2), &f(2.0)), Cmp::Equal);
    assert_eq!(value_cmp(&f(2.5), &Value::Integer(2)), Cmp::Greater);
    assert_eq!(value_cmp(&Value::Integer(-5), &f(-4.5)), Cmp::Less);
    assert_eq!(value_cmp(&Value::Integer(0), &f(-0.0)), Cmp::Equal);
    assert_eq!(value_cmp(&Value::Integer(0), &f(5e-324)), Cmp::Less);
    assert_eq!(value_cmp(&Value::Integer(1), &f(5e-324)), Cmp::Greater);
    // 2^53 + 1 is not representable: 9007199254740993.0 rounds to 2^53
    assert_eq!(
        value_cmp(&Value::Integer(9007199254740993), &f(9007199254740992.0)),
        Cmp::Greater
    );
    assert_eq!(value_cmp(&Value::Integer(i64::MAX), &f(1e19)), Cmp::Less);
    assert_eq!(value_cmp(&Value::Integer(i64::MIN), &f(-1e19)), Cmp::Greater);
    assert_eq!(value_cmp(&Value::Integer(7), &f(f64::INFINITY)), Cmp::Less);
    assert_eq!(value_cmp(&Value::Integer(7), &f(f64::NEG_INFINITY)), Cmp::Greater);
    assert_eq!(value_cmp(&Value::Integer(7), &f(f64::NAN)), Cmp::Greater);
}

#[test]
fn bytes_order_lexicographic() {
    let a = Value::Text(b"abc".to_vec());
    let b = Value::Text(b"abd".to_vec());
    let c = Value::Text(b"ab".to_vec());
    assert_eq!(value_cmp(&a, &b), Cmp::Less);
    assert_eq!(value_cmp(&c, &a), Cmp::Less);
    assert_eq!(value_cmp(&a, &a.clone()), Cmp::Equal);
    let x = Value::Blob(vec![0, 255]);
    let y = Value::Blob(vec![0, 255, 1]);
    assert_eq!(value_cmp(&x, &y), Cmp::Less);
}

#[test]
fn rendering_is_exact() {
    assert_eq!(limbo_engine::render_value(&Value::Null), Some(vec![]));
    assert_eq!(
        limbo_engine::render_value(&Value::Integer(0)),
        Some(b"0".to_vec())
    );
    assert_eq!(
        limbo_engine::render_value(&Value::Integer(907)),
        Some(b"907".to_vec())
    );
    assert_eq!(
        limbo_engine::render_value(&Value::Integer(-123)),
        Some(b"-123".to_vec())
    );
    assert_eq!(
        limbo_engine::render_value(&Value::Integer(i64::MIN)),
        Some(b"-9223372036854775808".to_vec())
    );
    assert_eq!(
        limbo_engine::render_value(&Value::Text(b"abc".to_vec())),
        Some(b"abc".to_vec())
    );
    assert_eq!(
        limbo_engine::render_value(&Value::Blob(vec![1, 2])),
        Some(vec![1, 2])
    );
    assert_eq!(limbo_engine::render_value(&f(1.5)), None);
}
