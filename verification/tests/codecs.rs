use ruq::error::Error;
use ruq::json::decode;
use ruq::number::Number;
use ruq::toml::Toml;
use ruq::value::Value;
use ruq::yaml::Yaml;

fn json(text: &str) -> Value {
    decode(text).unwrap()
}

const PERSON: &str = r#"
        {
            "name": "John Doe",
            "age": 43,
            "phones": [
                "+44 1234567",
                "+44 2345678"
            ]
        }"#;

#[test]
fn toml_convert_json_to_toml() {
    let toml = Toml::from_json(json(PERSON)).get_toml();

    let toml_val = Toml::new(String::from(
        r#"
        age = 43
        name = "John Doe"
        phones = ["+44 1234567", "+44 2345678"]
"#,
    ))
    .unwrap()
    .get_toml();
    assert_eq!(toml_val, toml);
}

#[test]
fn toml_convert_toml_to_json() {
    let toml_str = r#"age = 43
name = "John Doe"
phones = ["+44 1234567", "+44 2345678"]
"#;

    let toml = Toml::new(toml_str.to_string()).unwrap();
    let json_data = toml.to_json();

    assert_eq!(json_data, json(PERSON))
}

#[test]
fn convert_cargo_json_to_toml() {
    let json_data = r#"{
        "dependencies": {
          "clap": {
            "features": [
              "derive"
            ],
            "version": "3.2.17"
          },
          "regex": "1.5.6",
          "serde": {
            "features": [
              "derive"
            ],
            "version": "1.0"
          },
          "serde_json": {
            "version": "1.0"
          },
          "serde_yaml": "0.9.13",
          "toml": "0.5.9"
        },
        "package": {
          "edition": "2021",
          "name": "ruq",
          "version": "0.1.0"
        }
      }"#;

    let toml = Toml::from_json(json(json_data)).get_toml();

    let toml_val = Toml::new(String::from(
        r#"
        [package]
        name = "ruq"
        version = "0.1.0"
        edition = "2021"
        
        [dependencies]
        serde_json = { version = "1.0" }
        regex = "1.5.6"
        toml = "0.5.9"
        serde = { version = "1.0", features = ["derive"] }
        clap = { version = "3.2.17", features = ["derive"] }
        serde_yaml = "0.9.13"      
"#,
    ))
    .unwrap()
    .get_toml();
    assert_eq!(toml_val, toml);
}

#[test]
fn toml_processor_convert_json_to_toml() {
    let toml = Toml::from_json(json(PERSON));

    let toml_val = Toml::new(String::from(
        r#"
        age = 43
        name = "John Doe"
        phones = ["+44 1234567", "+44 2345678"]
"#,
    ))
    .unwrap();
    assert_eq!(toml_val.get_toml(), toml.get_toml());
}

#[test]
fn toml_processor_convert_toml_to_json() {
    let toml_str = r#"age = 43
name = "John Doe"
phones = ["+44 1234567", "+44 2345678"]
"#;

    let toml = Toml::new(toml_str.to_string()).unwrap();
    let json_data = toml.to_json();

    assert_eq!(json_data, json(PERSON))
}

#[test]
fn convert_json_to_yaml() {
    let yaml = Yaml::from_json(json(PERSON)).get_yaml();

    let yaml_val = Yaml::new(String::from(
        r#"
        age: 43
        name: "John Doe"
        phones: ["+44 1234567", "+44 2345678"]
"#,
    ))
    .unwrap()
    .get_yaml();
    assert_eq!(yaml_val, yaml);
}

#[test]
fn yaml_convert_toml_to_json() {
    let yaml_str = r#"age: 43
name: "John Doe"
phones: ["+44 1234567", "+44 2345678"]
"#;

    let yaml = Yaml::new(yaml_str.to_string()).unwrap();
    let json_data = yaml.to_json();

    assert_eq!(json_data, json(PERSON))
}

#[test]
fn malformed_toml_is_a_format_error() {
    assert_eq!(Toml::new(String::from("age = = 43")).err(), Some(Error::Format));
}

#[test]
fn malformed_yaml_is_a_format_error() {
    assert_eq!(Yaml::new(String::from("a: [1, 2")).err(), Some(Error::Format));
}

#[test]
fn toml_floats_and_nesting_are_read() {
    let toml = Toml::new(String::from("[a]\nb = 1.5\nc = [true, false]\n")).unwrap();
    assert_eq!(toml.to_json(), json(r#"{"a": {"b": 1.5, "c": [true, false]}}"#));
}

#[test]
fn json_numbers_are_read_in_their_three_forms() {
    assert_eq!(json("5"), Value::Number(Number::PosInt(5)));
    assert_eq!(json("18446744073709551615"), Value::Number(Number::PosInt(u64::MAX)));
    assert_eq!(json("-5"), Value::Number(Number::NegInt(-5)));
    assert_eq!(json("1.5"), Value::Number(Number::Float(1.5f64.to_bits())));
    assert_eq!(json("-0.25e1"), Value::Number(Number::Float((-2.5f64).to_bits())));
}

#[test]
fn json_values_are_read_variant_by_variant() {
    assert_eq!(json("null"), Value::Null);
    assert_eq!(json("true"), Value::Bool(true));
    assert_eq!(json(r#""a\nb""#), Value::String(String::from("a\nb")));
    assert_eq!(
        json(r#"[1, {"b": [], "a": null}]"#),
        Value::Array(vec![
            Value::Number(Number::PosInt(1)),
            Value::Object(vec![
                (String::from("a"), Value::Null),
                (String::from("b"), Value::Array(vec![])),
            ]),
        ])
    );
}

#[test]
fn what_is_no_json_is_not_read() {
    assert_eq!(decode("{"), None);
    assert_eq!(decode(""), None);
    assert_eq!(decode("1 2"), None);
}
