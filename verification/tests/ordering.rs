use stable_order::compare::Rank;
use stable_order::compare::compare_values;
use stable_order::iteratee::Iteratee;
use stable_order::iteratee::Order;
use stable_order::orderby::order_by;
use stable_order::value::Field;
use stable_order::value::Value;

fn num(n: i64) -> Value {
    Value::Num(n)
}

fn text(s: &str) -> Value {
    Value::Text(s.to_string())
}

fn obj(pairs: Vec<(&str, Value)>) -> Value {
    let mut fields = Vec::new();
    for (k, v) in pairs {
        fields.push(Field { key: k.to_string(), val: v });
    }
    Value::Object(fields)
}

fn prop(name: &str) -> Iteratee {
    Iteratee::Property(name.to_string())
}

#[test]
fn numbers_compare_numerically() {
    assert_eq!(compare_values(&num(1), &num(2)), Rank::Less);
    assert_eq!(compare_values(&num(2), &num(1)), Rank::Greater);
    assert_eq!(compare_values(&num(2), &num(2)), Rank::Equal);
}

#[test]
fn text_compares_lexically() {
    assert_eq!(compare_values(&text("a"), &text("b")), Rank::Less);
    assert_eq!(compare_values(&text("ab"), &text("a")), Rank::Greater);
    assert_eq!(compare_values(&text("ab"), &text("ab")), Rank::Equal);
    assert_eq!(compare_values(&text(""), &text("a")), Rank::Less);
}

#[test]
fn booleans_compare_false_before_true() {
    assert_eq!(compare_values(&Value::Bool(false), &Value::Bool(true)), Rank::Less);
    assert_eq!(compare_values(&Value::Bool(true), &Value::Bool(false)), Rank::Greater);
    assert_eq!(compare_values(&Value::Bool(true), &Value::Bool(true)), Rank::Equal);
}

#[test]
fn mismatched_types_compare_equal() {
    assert_eq!(compare_values(&num(1), &text("a")), Rank::Equal);
    assert_eq!(compare_values(&Value::Null, &num(5)), Rank::Equal);
    assert_eq!(compare_values(&Value::Null, &Value::Null), Rank::Equal);
    assert_eq!(compare_values(&Value::List(vec![]), &Value::List(vec![])), Rank::Equal);
}

#[test]
fn property_extracts_key_or_null() {
    let r = obj(vec![("a", num(1)), ("b", num(2))]);
    assert_eq!(prop("b").apply(&r), num(2));
    assert_eq!(prop("c").apply(&r), Value::Null);
    assert_eq!(prop("a").apply(&num(3)), Value::Null);
}

#[test]
fn path_descends_and_defaults_to_null() {
    let nested = obj(vec![("inner", obj(vec![("x", num(9))]))]);
    let path = Iteratee::Path(vec!["inner".to_string(), "x".to_string()]);
    assert_eq!(path.apply(&nested), num(9));
    let missing = Iteratee::Path(vec!["inner".to_string(), "y".to_string()]);
    assert_eq!(missing.apply(&nested), Value::Null);
    let through_leaf = Iteratee::Path(vec!["inner".to_string(), "x".to_string(), "z".to_string()]);
    assert_eq!(through_leaf.apply(&nested), Value::Null);
}

#[test]
fn order_by_two_ascending_keys_breaks_tie() {
    let r1 = obj(vec![("a", num(1)), ("b", num(2))]);
    let r2 = obj(vec![("a", num(1)), ("b", num(1))]);
    let coll = Value::List(vec![r1, r2]);
    let its = vec![prop("a"), prop("b")];
    let ords = vec![Order::Ascending, Order::Ascending];
    let out = order_by(&coll, &its, &ords);
    assert_eq!(
        out,
        vec![
            obj(vec![("a", num(1)), ("b", num(1))]),
            obj(vec![("a", num(1)), ("b", num(2))]),
        ]
    );
}

#[test]
fn order_by_descending_second_key_reverses_tie() {
    let r1 = obj(vec![("a", num(1)), ("b", num(2))]);
    let r2 = obj(vec![("a", num(1)), ("b", num(1))]);
    let coll = Value::List(vec![r1, r2]);
    let its = vec![prop("a"), prop("b")];
    let ords = vec![Order::Ascending, Order::Descending];
    let out = order_by(&coll, &its, &ords);
    assert_eq!(
        out,
        vec![
            obj(vec![("a", num(1)), ("b", num(2))]),
            obj(vec![("a", num(1)), ("b", num(1))]),
        ]
    );
}

#[test]
fn missing_key_sorts_as_tie_in_input_order() {
    let r1 = obj(vec![("a", num(2))]);
    let r2 = obj(vec![("b", num(1))]);
    let r3 = obj(vec![("a", num(3))]);
    let coll = Value::List(vec![r1.duplicate(), r2.duplicate(), r3.duplicate()]);
    let out = order_by(&coll, &vec![prop("c")], &vec![Order::Ascending]);
    assert_eq!(out, vec![r1, r2, r3]);
}

#[test]
fn order_by_of_empty_is_empty() {
    let coll = Value::List(Vec::new());
    let out = order_by(&coll, &Vec::new(), &Vec::new());
    assert_eq!(out, Vec::<Value>::new());
}

#[test]
fn order_by_singleton_is_unchanged() {
    let coll = Value::List(vec![num(4)]);
    let out = order_by(&coll, &Vec::new(), &Vec::new());
    assert_eq!(out, vec![num(4)]);
}

#[test]
fn order_by_of_non_sequence_is_empty() {
    let out = order_by(&num(3), &Vec::new(), &Vec::new());
    assert_eq!(out, Vec::<Value>::new());
}

#[test]
fn mixed_types_keep_input_order() {
    let coll = Value::List(vec![num(1), text("a"), Value::Bool(true)]);
    let out = order_by(&coll, &Vec::new(), &Vec::new());
    assert_eq!(out, vec![num(1), text("a"), Value::Bool(true)]);
}

#[test]
fn identity_criteria_sort_numbers() {
    let coll = Value::List(vec![num(3), num(1), num(2)]);
    let out = order_by(&coll, &Vec::new(), &Vec::new());
    assert_eq!(out, vec![num(1), num(2), num(3)]);
}

#[test]
fn missing_orders_default_to_ascending() {
    let coll = Value::List(vec![num(3), num(1), num(2)]);
    let out = order_by(&coll, &Vec::new(), &Vec::new());
    assert_eq!(out, vec![num(1), num(2), num(3)]);
    let out_desc = order_by(&coll, &Vec::new(), &vec![Order::Descending]);
    assert_eq!(out_desc, vec![num(3), num(2), num(1)]);
}

#[test]
fn full_ties_keep_input_order() {
    let r1 = obj(vec![("k", num(1)), ("tag", text("first"))]);
    let r2 = obj(vec![("k", num(0)), ("tag", text("second"))]);
    let r3 = obj(vec![("k", num(1)), ("tag", text("third"))]);
    let coll = Value::List(vec![r1, r2, r3]);
    let out = order_by(&coll, &vec![prop("k")], &vec![Order::Ascending]);
    assert_eq!(
        out,
        vec![
            obj(vec![("k", num(0)), ("tag", text("second"))]),
            obj(vec![("k", num(1)), ("tag", text("first"))]),
            obj(vec![("k", num(1)), ("tag", text("third"))]),
        ]
    );
}

#[test]
fn ordering_twice_equals_ordering_once() {
    let coll = Value::List(vec![
        obj(vec![("a", num(2))]),
        obj(vec![("a", num(1))]),
        obj(vec![("a", num(3))]),
        obj(vec![("a", num(1))]),
    ]);
    let its = vec![prop("a")];
    let ords = vec![Order::Ascending];
    let once = order_by(&coll, &its, &ords);
    let again = order_by(&Value::List(duplicate_all(&once)), &its, &ords);
    assert_eq!(again, once);
}

#[test]
fn output_is_a_permutation_of_the_input() {
    let coll = Value::List(vec![num(5), num(2), num(5), num(1)]);
    let out = order_by(&coll, &Vec::new(), &Vec::new());
    assert_eq!(out.len(), 4);
    assert_eq!(out, vec![num(1), num(2), num(5), num(5)]);
}

#[test]
fn ordering_many_records_crosses_run_boundaries() {
    let mut records = Vec::new();
    for i in 0..40i64 {
        records.push(obj(vec![("k", num(39 - i)), ("pos", num(i))]));
    }
    let coll = Value::List(records);
    let out = order_by(&coll, &vec![prop("k")], &vec![Order::Ascending]);
    assert_eq!(out.len(), 40);
    for i in 0..40i64 {
        assert_eq!(
            out[i as usize],
            obj(vec![("k", num(i)), ("pos", num(39 - i))])
        );
    }
}

#[test]
fn ordering_many_tied_records_is_stable() {
    let mut records = Vec::new();
    for i in 0..40i64 {
        records.push(obj(vec![("k", num(i % 2)), ("pos", num(i))]));
    }
    let coll = Value::List(records);
    let out = order_by(&coll, &vec![prop("k")], &vec![Order::Ascending]);
    assert_eq!(out.len(), 40);
    let mut expected = Vec::new();
    for i in 0..40i64 {
        if i % 2 == 0 {
            expected.push(obj(vec![("k", num(0)), ("pos", num(i))]));
        }
    }
    for i in 0..40i64 {
        if i % 2 == 1 {
            expected.push(obj(vec![("k", num(1)), ("pos", num(i))]));
        }
    }
    assert_eq!(out, expected);
}

fn duplicate_all(vs: &Vec<Value>) -> Vec<Value> {
    let mut out = Vec::new();
    for v in vs {
        out.push(v.duplicate());
    }
    out
}
