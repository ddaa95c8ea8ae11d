use sd_req::json::{get_string, get_value, ConfigValue, NewValue};

fn s(x: &str) -> String {
    x.to_string()
}

fn int_number(i: i64) -> ConfigValue {
    ConfigValue::Number { is_float: false, as_int: Some(i), as_float_text: Some(format!("{}", i as f64)), as_uint: None }
}

fn fields() -> Vec<(String, ConfigValue)> {
    vec![
        (s("url"), ConfigValue::Text(s("http://127.0.0.1:7860"))),
        (s("tiling"), ConfigValue::Bool(false)),
        (s("steps"), int_number(20)),
        (s("seed"), int_number(-1)),
        (
            s("cfg_scale"),
            ConfigValue::Number { is_float: true, as_int: None, as_float_text: Some(s("7.5")), as_uint: None },
        ),
        (
            s("big"),
            ConfigValue::Number {
                is_float: false,
                as_int: None,
                as_float_text: None,
                as_uint: Some(18446744073709551615),
            },
        ),
        (s("opts"), ConfigValue::Object(s("{\"a\": Number(1)}"))),
        (s("styles"), ConfigValue::Array),
        (s("none"), ConfigValue::Null),
    ]
}

#[test]
fn entry_texts() {
    let f = fields();
    assert_eq!(get_string(&f, s("url"), s("d")), "http://127.0.0.1:7860");
    assert_eq!(get_string(&f, s("tiling"), s("d")), "false");
    assert_eq!(get_string(&f, s("steps"), s("d")), "20");
    assert_eq!(get_string(&f, s("seed"), s("d")), "-1");
    assert_eq!(get_string(&f, s("cfg_scale"), s("d")), "7.5");
    assert_eq!(get_string(&f, s("big"), s("d")), "18446744073709551615");
    assert_eq!(get_string(&f, s("opts"), s("d")), "{\"a\": Number(1)}");
    assert_eq!(get_string(&f, s("styles"), s("d")), "d");
    assert_eq!(get_string(&f, s("none"), s("d")), "d");
    assert_eq!(get_string(&f, s("missing"), s("d")), "d");
}

#[test]
fn extreme_integers_as_text() {
    let f = vec![(s("min"), int_number(i64::MIN)), (s("max"), int_number(i64::MAX)), (s("zero"), int_number(0))];
    assert_eq!(get_string(&f, s("min"), s("")), i64::MIN.to_string());
    assert_eq!(get_string(&f, s("max"), s("")), i64::MAX.to_string());
    assert_eq!(get_string(&f, s("zero"), s("")), "0");
}

#[test]
fn first_entry_of_a_name_wins() {
    let f = vec![(s("k"), ConfigValue::Text(s("one"))), (s("k"), ConfigValue::Text(s("two")))];
    assert_eq!(get_string(&f, s("k"), s("")), "one");
}

#[test]
fn override_values() {
    assert_eq!(get_value(&ConfigValue::Bool(false), s("TRUE")), NewValue::Bool(true));
    assert_eq!(get_value(&ConfigValue::Bool(true), s("False")), NewValue::Bool(false));
    assert_eq!(get_value(&ConfigValue::Bool(true), s("yes")), NewValue::InvalidBool);
    assert_eq!(get_value(&int_number(20), s("50")), NewValue::Int(50));
    assert_eq!(get_value(&int_number(20), s("-3")), NewValue::Int(-3));
    assert_eq!(get_value(&int_number(20), s("5.5")), NewValue::InvalidI64);
    let float = ConfigValue::Number { is_float: true, as_int: None, as_float_text: Some(s("7")), as_uint: None };
    assert_eq!(get_value(&float, s("7.5")), NewValue::Float);
    assert_eq!(get_value(&ConfigValue::Text(s("Euler")), s("DPM")), NewValue::Text(s("DPM")));
    assert_eq!(get_value(&ConfigValue::Array, s("x")), NewValue::Null);
    assert_eq!(get_value(&ConfigValue::Null, s("x")), NewValue::Null);
}

#[test]
fn integer_text_reads_back() {
    for i in [i64::MIN, -1, 0, 42, i64::MAX] {
        assert_eq!(sd_req::types::str_to_i64(sd_req::sd_req::signed_decimal(i)), (true, i));
    }
}
