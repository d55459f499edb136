use ruq::json::decode;
use ruq::number::Arithmetic;
use ruq::parser::Parser;
use ruq::value::Value;

fn fpu(op: Arithmetic, a: u64, b: u64) -> u64 {
    let (x, y) = (f64::from_bits(a), f64::from_bits(b));
    let result = match op {
        Arithmetic::Add => x + y,
        Arithmetic::Subtract => x - y,
        Arithmetic::Multiply => x * y,
        Arithmetic::Divide => x / y,
        Arithmetic::Remainder => x % y,
    };
    result.to_bits()
}

fn json(text: &str) -> Value {
    decode(text).unwrap()
}

struct TestParser {
    query: String,
    result: Value,
    json: Value,
}

#[test]
fn test_nil_parser() {
    let tests = [
        TestParser {
            query: String::from(".[]"),
            result: json(r#"[1,0,-1]"#),
            json: json(r#"[1,0,-1]"#),
        },
        TestParser {
            query: String::from(".[].[0]"),
            result: json(r#"1"#),
            json: json(r#"[1,0,-1]"#),
        },
        TestParser {
            query: String::from("."),
            result: json(r#"{}"#),
            json: json(r#"{}"#),
        },
        TestParser {
            query: String::from(" ."),
            result: json(r#"{"a": 1}"#),
            json: json(r#"{"a": 1}"#),
        },
        TestParser {
            query: String::from(r#" . | {"michael_age": .a, "michael_height": .a}"#),
            result: json(r#"{"michael_age": 1, "michael_height": 1}"#),
            json: json(r#"{"a": 1}"#),
        },
    ];

    for (i, test) in tests.into_iter().enumerate() {
        let parsed = Parser::parse(test.json.clone(), &test.query, &fpu).unwrap();
        assert_eq!(parsed, test.result, "Failed testing index {}", i);
    }
}

#[test]
fn test_nil_with_length() {
    let tests = [
        TestParser {
            query: String::from(".a | length"),
            result: json("1.0"),
            json: json(r#"{"a": 1}"#),
        },
        TestParser {
            query: String::from(" .a|length"),
            result: json("2.0"),
            json: json(r#"{"a": [{"a": 1}, {"b": 2}]}"#),
        },
        TestParser {
            query: String::from(" .a[0]|length"),
            result: json("2.0"),
            json: json(r#"{"a": [{"a": 55, "c": 100}, {"b": 2}]}"#),
        },
        TestParser {
            query: String::from(" .a[0].c.d|length"),
            result: json("100.0"),
            json: json(r#"{"a": [{"a": 55, "c": { "d": 100}}, {"b": 2}]}"#),
        },
    ];

    for (i, test) in tests.into_iter().enumerate() {
        let parsed = Parser::parse(test.json.clone(), &test.query, &fpu).unwrap();
        assert_eq!(parsed, test.result, "Failed testing index {}", i);
    }
}

#[test]
fn test_piped_operator() {
    let tests = [
        TestParser {
            query: String::from(r#". | {"a": .a} + {"b": .b} + {"c": .c} + {"a": .c}"#),
            result: json(r#"{"a": true, "b": 1, "c": true}"#),
            json: json(r#"{"a": "Hello", "b": 1, "c": true}"#),
        },
        TestParser {
            query: String::from(r#". | {"a": .a} + {"b": {"a": .b}} + {"c": .c} + {"a": .c}"#),
            result: json(r#"{"a": true, "b": {"a": 1}, "c": true}"#),
            json: json(r#"{"a": "Hello", "b": 1, "c": true}"#),
        },
        TestParser {
            query: String::from(r#". | {"a": .a} + {"b": .b} + {"c": .c} + {"a": .c} | .b + 1"#),
            result: json("6.0"),
            json: json(r#"{"a": "Hello", "b": 5, "c": true}"#),
        },
        TestParser {
            query: String::from(
                r#". | {"a": .a} + {"b": {"a": .b}} + {"c": .c} + {"a": .c} | length"#,
            ),
            result: json("3.0"),
            json: json(r#"{"a": "Hello", "b": 1, "c": true}"#),
        },
        TestParser {
            query: String::from(r#". | .d + 1 | length"#),
            result: json("1.0"),
            json: json("{}"),
        },
        TestParser {
            query: String::from(r#"2 + .d  | length"#),
            result: json("2.0"),
            json: json("{}"),
        },
        TestParser {
            query: String::from(r#""Hello" * 2"#),
            result: json(r#""HelloHello""#),
            json: json("{}"),
        },
        TestParser {
            query: String::from(r#". / ", ""#),
            result: json(r#"["a", "b,c,d", "e"]"#),
            json: json(r#""a, b,c,d, e""#),
        },
        TestParser {
            query: String::from(r#"10 / . * 3"#),
            result: json("5.0"),
            json: json("6"),
        },
        TestParser {
            query: String::from(r#".[] | (1 / .)?"#),
            result: json("[1.0, -1.0]"),
            json: json("[1, 0, -1]"),
        },
        TestParser {
            query: String::from(r#".[] | (1 / 1 / .)?"#),
            result: json("[1.0, -1.0]"),
            json: json("[1, 0, -1]"),
        },
        TestParser {
            query: String::from(r#"12 % . * 3"#),
            result: json("6.0"),
            json: json("5"),
        },
        TestParser {
            query: String::from(r#".[] | (3 % .)?"#),
            result: json("[1.0, 1.0]"),
            json: json("[2, 0, -2]"),
        },
        TestParser {
            query: String::from(r#".[] | (3 % 2 / .)?"#),
            result: json("[1.0, -1.0]"),
            json: json("[1, 0, -1]"),
        },
        TestParser {
            query: String::from(r#". | ["xml", "json"] - ["xml"]"#),
            result: json(r#"["json"]"#),
            json: json("{}"),
        },
        TestParser {
            query: String::from(r#". | ["xml", "json"] - ["xml"]"#),
            result: json(r#"["json"]"#),
            json: json("{}"),
        },
        TestParser {
            query: String::from(r#"[{"xml": 1}, {"yaml": 2}] - [{"xml": 1}]"#),
            result: json(r#"[{"yaml": 2}]"#),
            json: json("{}"),
        },
        TestParser {
            query: String::from(r#"[{"xml": 1}, {"yaml": 2}] - [{"xml": 2}]"#),
            result: json(r#"[{"xml": 1}, {"yaml": 2}]"#),
            json: json("{}"),
        },
        TestParser {
            query: String::from(r#"{"k": {"a": 1, "b": 2}} * {"k": {"a": 0,"c": 3}}"#),
            result: json(r#"{"k": {"a": 0.0, "b": 2, "c": 3}}"#),
            json: json("{}"),
        },
    ];

    for (i, test) in tests.into_iter().enumerate() {
        let parsed = Parser::parse(test.json.clone(), &test.query, &fpu).unwrap();
        assert_eq!(parsed, test.result, "Failed testing index {}", i);
    }
}

#[test]
fn find_length() {
    struct TestStage {
        query: String,
        json_types: Vec<Parser>,
    }

    let tests = [
        TestStage {
            query: String::from("length"),
            json_types: vec![Parser::Length],
        },
        TestStage {
            query: String::from(" length"),
            json_types: vec![Parser::Length],
        },
    ];

    for (i, test) in tests.iter().enumerate() {
        let parsed = Parser::parse_pipe(&Value::Null, test.query.clone()).unwrap();
        assert_eq!(vec![parsed], test.json_types, "Failed testing index {}", i);
    }
}
