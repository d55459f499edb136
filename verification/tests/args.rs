use ruq::args::{Args, SupportedLanguages};
use ruq::codec::read;
use ruq::error::Error;
use ruq::json::decode;
use ruq::number::Arithmetic;

fn fpu(op: Arithmetic, a: u64, b: u64) -> u64 {
    let (x, y) = (f64::from_bits(a), f64::from_bits(b));
    let result = match op {
        Arithmetic::Add => x + y,
        Arithmetic::Subtract => x - y,
        Arithmetic::Multiply => x * y,
        Arithmetic::Divide => x / y,
        Arithmetic::Remainder => x % y,
    };
    result.to_bits()
}

#[test]
fn a_format_is_named_in_any_case() {
    assert_eq!(SupportedLanguages::from(String::from("json")), SupportedLanguages::Json);
    assert_eq!(SupportedLanguages::from(String::from("JSON")), SupportedLanguages::Json);
    assert_eq!(SupportedLanguages::from(String::from("Toml")), SupportedLanguages::Toml);
    assert_eq!(SupportedLanguages::from(String::from("yAmL")), SupportedLanguages::Yaml);
}

#[test]
fn another_name_is_unsupported() {
    assert_eq!(SupportedLanguages::from(String::from("xml")), SupportedLanguages::Unsupported);
    assert_eq!(SupportedLanguages::from(String::from("")), SupportedLanguages::Unsupported);
    assert_eq!(SupportedLanguages::from(String::from("jsonl")), SupportedLanguages::Unsupported);
    assert_eq!(SupportedLanguages::from(String::from(" json")), SupportedLanguages::Unsupported);
}

#[test]
fn the_output_is_in_the_format_of_the_input_unless_told() {
    let args = Args {
        input: None,
        filter: String::from("."),
        from: String::from("TOML"),
        to: None,
    };
    assert_eq!(args.source(), SupportedLanguages::Toml);
    assert_eq!(args.target(), SupportedLanguages::Toml);
    let args = Args {
        input: Some(String::from("a = 1")),
        filter: String::from("."),
        from: String::from("toml"),
        to: Some(String::from("yaml")),
    };
    assert_eq!(args.source(), SupportedLanguages::Toml);
    assert_eq!(args.target(), SupportedLanguages::Yaml);
}

#[test]
fn a_run_reads_its_input_and_applies_its_query() {
    let args = Args {
        input: None,
        filter: String::from(".a | length"),
        from: String::from("toml"),
        to: None,
    };
    let result = args.apply(String::from("a = [1, 2, 3]"), &fpu);
    assert_eq!(result, Ok(decode("3.0").unwrap()));
}

#[test]
fn a_run_in_an_unknown_format_is_unsupported() {
    let args = Args {
        input: None,
        filter: String::from("."),
        from: String::from("xml"),
        to: None,
    };
    assert_eq!(args.apply(String::from("<a/>"), &fpu), Err(Error::UnsupportedFormat));
}

#[test]
fn a_text_is_read_in_its_format() {
    let expected = decode(r#"{"a": [1, 2]}"#).unwrap();
    assert_eq!(read(String::from(r#"{"a": [1, 2]}"#), SupportedLanguages::Json), Ok(expected.clone()));
    assert_eq!(read(String::from("a = [1, 2]"), SupportedLanguages::Toml), Ok(expected.clone()));
    assert_eq!(read(String::from("a: [1, 2]"), SupportedLanguages::Yaml), Ok(expected));
    assert_eq!(read(String::from("{"), SupportedLanguages::Json), Err(Error::Format));
    assert_eq!(read(String::from("{}"), SupportedLanguages::Unsupported), Err(Error::UnsupportedFormat));
}
