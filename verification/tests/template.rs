use ruq::json::decode;
use ruq::template::JsonParser;
use ruq::value::Value;

fn json(text: &str) -> Value {
    decode(text).unwrap()
}

struct TestParser {
    query: String,
    result: Value,
    json: Value,
}

#[test]
fn parser_test_convert_to_json() {
    let tests = [
        TestParser {
            query: String::from(r#"{"a": .a}"#),
            result: json(r#"{"a":".a"}"#),
            json: json("{}"),
        },
        TestParser {
            query: String::from(r#"{"a": .a[0]}"#),
            result: json(r#"{"a": ".a[0]"}"#),
            json: json(r#"{}"#),
        },
        TestParser {
            query: String::from(" .a[0]"),
            result: json(r#"".a[0]""#),
            json: json(r#"{}"#),
        },
    ];

    for (i, test) in tests.into_iter().enumerate() {
        let parser = JsonParser::new(test.json.clone());
        let value = parser.convert_filter_to_string(test.query.clone()).unwrap();
        assert_eq!(value, test.result, "Failed testing index {}", i);
    }
}

#[test]
fn parser_test_make_valid_json() {
    let tests = [
        TestParser {
            query: String::from(r#"{"a": .a}"#),
            result: json(r#"{"a":"Hello"}"#),
            json: json(r#"{"a": "Hello", "b": 1, "c": true}"#),
        },
        TestParser {
            query: String::from(r#"{"a": .a[0]}"#),
            result: json(r#"{"a":{"a":55,"c":100}}"#),
            json: json(r#"{"a": [{"a": 55, "c": 100}, {"b": 2}], "b": 1,"c": true}"#),
        },
        TestParser {
            query: String::from(" .a[0]"),
            result: json(r#"{"a":55,"c":100}"#),
            json: json(r#"{"a": [{"a": 55, "c": 100}, {"b": 2}]}"#),
        },
        TestParser {
            query: String::from(r#"{"a": ".a", "b": .a}"#),
            result: json(r#"{"a":".a", "b": "Hello"}"#),
            json: json(r#"{"a": "Hello", "b": 1, "c": true}"#),
        },
    ];

    for (i, test) in tests.into_iter().enumerate() {
        let parser = JsonParser::new(test.json.clone());
        let value = parser.parse_json(test.query.clone()).unwrap();
        assert_eq!(value, test.result, "Failed testing index {}", i);
    }
}

#[test]
fn json_parser_test_convert_to_json() {
    let tests = [
        TestParser {
            query: String::from(r#"{"a": .a}"#),
            result: json(r#"{"a":".a"}"#),
            json: json("{}"),
        },
        TestParser {
            query: String::from(r#"{"a": .a[0]}"#),
            result: json(r#"{"a": ".a[0]"}"#),
            json: json(r#"{}"#),
        },
        TestParser {
            query: String::from(" .a[0]"),
            result: json(r#"".a[0]""#),
            json: json(r#"{}"#),
        },
    ];

    for (i, test) in tests.into_iter().enumerate() {
        let parser = JsonParser::new(test.json.clone());
        let value = parser.convert_filter_to_string(test.query.clone()).unwrap();
        assert_eq!(value, test.result, "Failed testing index {}", i);
    }
}

#[test]
fn json_parser_test_make_valid_json() {
    let tests = [
        TestParser {
            query: String::from(r#"{"a": .a}"#),
            result: json(r#"{"a":"Hello"}"#),
            json: json(r#"{"a": "Hello", "b": 1, "c": true}"#),
        },
        TestParser {
            query: String::from(r#"{"a": .a[0]}"#),
            result: json(r#"{"a":{"a":55,"c":100}}"#),
            json: json(r#"{"a": [{"a": 55, "c": 100}, {"b": 2}], "b": 1,"c": true}"#),
        },
        TestParser {
            query: String::from(" .a[0]"),
            result: json(r#"{"a":55,"c":100}"#),
            json: json(r#"{"a": [{"a": 55, "c": 100}, {"b": 2}]}"#),
        },
    ];

    for (i, test) in tests.into_iter().enumerate() {
        let parser = JsonParser::new(test.json.clone());
        let value = parser.parse_json(test.query.clone()).unwrap();
        assert_eq!(value, test.result, "Failed testing index {}", i);
    }
}
