use sigcheck::value::{Array, BasicValue, Value};

fn bits(n: f64) -> u64 {
    n.to_bits()
}

fn show(value: &BasicValue) -> String {
    match value {
        BasicValue::Num(bits) => format!("{}", f64::from_bits(*bits)),
        BasicValue::Arr(values) => {
            let parts: Vec<String> = values.iter().map(show).collect();
            format!("[{}]", parts.join(" "))
        }
        BasicValue::Other => "other".to_string(),
        BasicValue::Unknown(depth) => format!("unknown {}", depth),
    }
}

#[test]
fn what_is_known_of_values() {
    let known = |value: Value| show(&BasicValue::from_val(&value));
    assert_eq!(known(Value::Num(Array::new(vec![], vec![bits(2.5)]))), "2.5");
    assert_eq!(known(Value::Byte(Array::new(vec![], vec![200]))), "200");
    assert_eq!(known(Value::Num(Array::new(vec![2], vec![bits(1.0), bits(-3.0)]))), "[1 -3]");
    assert_eq!(known(Value::Byte(Array::new(vec![3], vec![0, 1, 255]))), "[0 1 255]");
    assert_eq!(known(Value::Num(Array::new(vec![0], vec![]))), "[]");
    assert_eq!(known(Value::Num(Array::new(vec![1, 1], vec![bits(1.0)]))), "other");
    assert_eq!(known(Value::Char(Array::new(vec![], vec!['x']))), "other");
    assert_eq!(known(Value::Char(Array::new(vec![2], vec!['x', 'y']))), "[other other]");
    assert_eq!(known(Value::Complex(Array::new(vec![1], vec![(0, 0)]))), "[other]");
    let boxed = Value::Num(Array::new(vec![], vec![bits(1.0)]));
    assert_eq!(known(Value::Boxed(Array::new(vec![1], vec![boxed]))), "[other]");
}

#[test]
fn lists_of_numbers() {
    assert_eq!(show(&BasicValue::from_numbers(&[bits(1.0), bits(0.5)])), "[1 0.5]");
}

#[test]
fn copies_are_equal() {
    let value = BasicValue::Arr(vec![
        BasicValue::Unknown(3),
        BasicValue::Arr(vec![BasicValue::Num(bits(7.0))]),
        BasicValue::Other,
    ]);
    assert_eq!(show(&value.clone()), "[unknown 3 [7] other]");
}

#[test]
fn scalars_and_ranks() {
    let scalar: Array<u8> = Array::new(vec![], vec![5]);
    assert_eq!((scalar.rank(), scalar.as_scalar()), (0, Some(&5)));
    let table: Array<u8> = Array::new(vec![1, 2], vec![5, 6]);
    assert_eq!((table.rank(), table.as_scalar()), (2, None));
    assert_eq!(Value::Byte(table).rank(), 2);
}
