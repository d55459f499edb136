use ruq::error::Error;
use ruq::filter::resolve_path;
use ruq::json::decode;
use ruq::number::{Arithmetic, Number};
use ruq::operator::Operator;
use ruq::parser::Parser;
use ruq::template::JsonParser;
use ruq::text::chars_of;
use ruq::value::{Kind, Value};

fn fpu(op: Arithmetic, a: u64, b: u64) -> u64 {
    let (x, y) = (f64::from_bits(a), f64::from_bits(b));
    let result = match op {
        Arithmetic::Add => x + y,
        Arithmetic::Subtract => x - y,
        Arithmetic::Multiply => x * y,
        Arithmetic::Divide => x / y,
        Arithmetic::Remainder => x % y,
    };
    result.to_bits()
}

fn json(text: &str) -> Value {
    decode(text).unwrap()
}

fn run(input: &str, query: &str) -> Result<Value, Error> {
    Parser::parse(json(input), query, &fpu)
}

fn float(x: f64) -> Value {
    Value::Number(Number::Float(x.to_bits()))
}

fn resolve(input: &str, path: &str) -> Value {
    resolve_path(&json(input), &chars_of(path))
}

#[test]
fn a_key_selects_its_field() {
    assert_eq!(resolve(r#"{"a": 1, "b": [2]}"#, ".b"), json("[2]"));
    assert_eq!(resolve(r#"{"a": 1, "b": [2]}"#, ".a"), json("1"));
}

#[test]
fn a_missing_key_selects_null() {
    assert_eq!(resolve(r#"{"a": 1}"#, ".c"), Value::Null);
}

#[test]
fn a_key_of_what_is_no_object_selects_null() {
    assert_eq!(resolve("[1, 2]", ".a"), Value::Null);
    assert_eq!(resolve("7", ".a"), Value::Null);
}

#[test]
fn an_index_selects_its_item() {
    assert_eq!(resolve(r#"{"a": [10, 20, 30]}"#, ".a[2]"), json("30"));
    assert_eq!(resolve("[10, 20, 30]", ".[1]"), json("20"));
}

#[test]
fn an_index_beyond_the_array_selects_null() {
    assert_eq!(resolve("[10, 20, 30]", ".[3]"), Value::Null);
    assert_eq!(resolve("[10, 20, 30]", ".[99999999999999999999999999]"), Value::Null);
}

#[test]
fn an_index_of_what_is_no_array_selects_null() {
    assert_eq!(resolve(r#"{"a": 1}"#, ".[0]"), Value::Null);
}

#[test]
fn a_bare_dot_selects_the_input() {
    assert_eq!(resolve(r#"{"a": 1}"#, "."), json(r#"{"a": 1}"#));
}

#[test]
fn empty_brackets_select_the_input() {
    assert_eq!(resolve("[1, 2]", ".[]"), json("[1, 2]"));
}

#[test]
fn segments_apply_from_left_to_right() {
    assert_eq!(resolve(r#"{"a": [{"b": {"c": [5, 6]}}]}"#, ".a[0].b.c[1]"), json("6"));
}

#[test]
fn length_counts_items_fields_and_characters() {
    assert_eq!(run("[1, 2, 3]", "length"), Ok(float(3.0)));
    assert_eq!(run(r#"{"a": 1, "b": 2}"#, "length"), Ok(float(2.0)));
    assert_eq!(run(r#""héllo""#, "length"), Ok(float(5.0)));
    assert_eq!(run("[]", "length"), Ok(float(0.0)));
}

#[test]
fn length_of_a_number_is_the_number() {
    assert_eq!(run("-7", "length"), Ok(float(-7.0)));
    assert_eq!(run("2.5", "length"), Ok(float(2.5)));
}

#[test]
fn length_of_null_or_a_boolean_is_unsupported() {
    assert_eq!(run("null", "length"), Err(Error::UnsupportedLength));
    assert_eq!(run("true", "length"), Err(Error::UnsupportedLength));
}

#[test]
fn length_twice_gives_the_same() {
    let input = json(r#"{"a": [1, 2], "b": "xy"}"#);
    let first = Parser::get_json_length(&input);
    let second = Parser::get_json_length(&input);
    assert_eq!(first, second);
    assert_eq!(first, Ok(float(2.0)));
}

#[test]
fn a_pipeline_is_its_stages_in_turn() {
    let input = r#"{"a": {"b": [1, 2, 3]}}"#;
    let whole = run(input, ".a | .b | length");
    let first = run(input, ".a").unwrap();
    let second = Parser::parse(first, ".b | length", &fpu);
    assert_eq!(whole, second);
    assert_eq!(whole, Ok(float(3.0)));
}

#[test]
fn a_failing_stage_ends_the_pipeline() {
    assert_eq!(run("null", "length | .a"), Err(Error::UnsupportedLength));
}

#[test]
fn a_pipe_inside_a_string_is_no_pipe() {
    assert_eq!(run("{}", r#""a|b""#), Ok(json(r#""a|b""#)));
}

#[test]
fn an_operator_inside_brackets_is_no_operator() {
    assert_eq!(run("{}", "[1, -1]"), Ok(json("[1, -1]")));
    assert_eq!(run("{}", r#"{"a": -1}"#), Ok(json(r#"{"a": -1}"#)));
    assert_eq!(run("{}", r#""a+b""#), Ok(json(r#""a+b""#)));
}

#[test]
fn numbers_add_in_either_order() {
    assert_eq!(run("{}", "1.5 + 2"), Ok(float(3.5)));
    assert_eq!(run("{}", "2 + 1.5"), Ok(float(3.5)));
}

#[test]
fn arrays_and_strings_are_joined_in_order() {
    assert_eq!(run("{}", "[1, 2] + [3]"), Ok(json("[1, 2, 3]")));
    assert_eq!(run("{}", "[3] + [1, 2]"), Ok(json("[3, 1, 2]")));
    assert_eq!(run("{}", r#""ab" + "cd""#), Ok(json(r#""abcd""#)));
    assert_eq!(run("{}", r#""cd" + "ab""#), Ok(json(r#""cdab""#)));
}

#[test]
fn the_right_object_overrides_the_left() {
    assert_eq!(
        run("{}", r#"{"a": 1, "b": 2} + {"b": 3, "c": 4}"#),
        Ok(json(r#"{"a": 1, "b": 3, "c": 4}"#))
    );
    assert_eq!(
        run("{}", r#"{"b": 3, "c": 4} + {"a": 1, "b": 2}"#),
        Ok(json(r#"{"a": 1, "b": 2, "c": 4}"#))
    );
}

#[test]
fn a_number_and_null_give_the_number() {
    assert_eq!(run("{}", "3 + null"), Ok(json("3")));
    assert_eq!(run("{}", "null + 3"), Ok(json("3")));
}

#[test]
fn adding_what_does_not_add_is_a_mismatch() {
    assert_eq!(
        run("{}", r#"1 + "a""#),
        Err(Error::TypeMismatch { left: Kind::Number, right: Kind::String })
    );
    assert_eq!(
        run("{}", "[1] + {}"),
        Err(Error::TypeMismatch { left: Kind::Array, right: Kind::Object })
    );
    assert_eq!(
        run("{}", "true + null"),
        Err(Error::TypeMismatch { left: Kind::Bool, right: Kind::Null })
    );
}

#[test]
fn subtraction_keeps_order_and_repeats() {
    assert_eq!(run("{}", "[3, 1, 3, 2] - [1]"), Ok(json("[3, 3, 2]")));
    assert_eq!(run("{}", "7 - 2"), Ok(float(5.0)));
    assert_eq!(
        run("{}", r#""a" - "a""#),
        Err(Error::TypeMismatch { left: Kind::String, right: Kind::String })
    );
}

#[test]
fn an_integer_is_no_double_in_subtraction() {
    assert_eq!(run("{}", "[1, 1.0] - [1]"), Ok(json("[1.0]")));
}

#[test]
fn objects_multiply_field_by_field() {
    assert_eq!(
        run("{}", r#"{"a": 2, "b": "x", "c": {"d": 3}} * {"a": 5, "c": {"d": 4, "e": 1}, "f": []}"#),
        Ok(json(r#"{"a": 10.0, "b": "x", "c": {"d": 12.0, "e": 1}, "f": []}"#))
    );
}

#[test]
fn a_failing_field_fails_the_product_of_objects() {
    assert_eq!(
        run("{}", r#"{"a": [1]} * {"a": 2}"#),
        Err(Error::TypeMismatch { left: Kind::Array, right: Kind::Number })
    );
}

#[test]
fn a_string_is_repeated() {
    assert_eq!(run("{}", r#""ab" * 3"#), Ok(json(r#""ababab""#)));
    assert_eq!(run("{}", r#"3 * "ab""#), Ok(json(r#""ababab""#)));
    assert_eq!(run("{}", r#""ab" * 1"#), Ok(json(r#""ab""#)));
    assert_eq!(run("{}", r#""ab" * 0"#), Ok(Value::Null));
}

#[test]
fn a_string_is_not_repeated_by_a_double_or_a_negative() {
    assert_eq!(
        run("{}", r#""ab" * 1.5"#),
        Err(Error::TypeMismatch { left: Kind::String, right: Kind::Number })
    );
    assert_eq!(
        run("-2", r#". * "ab""#),
        Err(Error::TypeMismatch { left: Kind::Number, right: Kind::String })
    );
}

#[test]
fn numbers_divide_and_leave_remainders() {
    assert_eq!(run("{}", "10 / 4"), Ok(float(2.5)));
    assert_eq!(run("{}", "7 % 4"), Ok(float(3.0)));
    assert_eq!(run("{}", "6 * 7"), Ok(float(42.0)));
}

#[test]
fn a_division_by_zero_fails() {
    assert_eq!(run("{}", "1 / 0"), Err(Error::DivisionByZero));
    assert_eq!(run("{}", "1 % 0"), Err(Error::ModuloByZero));
    assert_eq!(run("{}", "1 / 0.0"), Err(Error::DivisionByZero));
    assert_eq!(run("0", "(1 / .)?"), Err(Error::DivisionByZero));
    assert_eq!(run("0", "(1 % .)?"), Err(Error::ModuloByZero));
}

#[test]
fn a_zero_among_divisors_fails_or_is_passed_over() {
    assert_eq!(run("[1, 0, -1]", "1 / ."), Err(Error::DivisionByZero));
    assert_eq!(run("[1, 0, -1]", "1 % ."), Err(Error::ModuloByZero));
    assert_eq!(run("[1, 0, -1]", "(1 / .)?"), Ok(json("[1.0, -1.0]")));
    assert_eq!(run("[4, 0, 2]", "(8 / .)?"), Ok(json("[2.0, 4.0]")));
}

#[test]
fn an_array_divides_item_by_item() {
    assert_eq!(run("[1, 2, 3]", ". / 2"), Ok(json("[0.5, 1.0, 1.5]")));
    assert_eq!(run("[5, 7]", ". % 3"), Ok(json("[2.0, 1.0]")));
}

#[test]
fn an_array_over_zero_fails_or_is_null() {
    assert_eq!(run("[1, 2]", ". / 0"), Err(Error::DivisionByZero));
    assert_eq!(run("[1, 2]", "(. / 0)?"), Ok(Value::Null));
    assert_eq!(run("[1, 2]", "(. % 0)?"), Ok(Value::Null));
}

#[test]
fn an_item_that_is_no_number_is_a_mismatch() {
    assert_eq!(
        run(r#"[1, "a"]"#, "1 / ."),
        Err(Error::TypeMismatch { left: Kind::Number, right: Kind::Array })
    );
    assert_eq!(
        run(r#"[1, "a"]"#, ". / 2"),
        Err(Error::TypeMismatch { left: Kind::Array, right: Kind::Number })
    );
}

#[test]
fn a_string_is_split_by_a_string() {
    assert_eq!(run(r#""a,b,,c""#, r#". / ",""#), Ok(json(r#"["a", "b", "", "c"]"#)));
    assert_eq!(run(r#""abc""#, r#". / "x""#), Ok(json(r#"["abc"]"#)));
    assert_eq!(run(r#""aaa""#, r#". / "aa""#), Ok(json(r#"["", "a"]"#)));
    assert_eq!(run(r#""ab""#, r#". / """#), Ok(json(r#"["", "a", "b", ""]"#)));
}

#[test]
fn the_remainder_of_strings_is_a_mismatch() {
    assert_eq!(
        run("{}", r#""a" % "b""#),
        Err(Error::TypeMismatch { left: Kind::String, right: Kind::String })
    );
}

#[test]
fn operators_apply_from_left_to_right() {
    assert_eq!(run("{}", "2 + 3 * 4"), Ok(float(20.0)));
    assert_eq!(run("{}", "2 * 3 + 4"), Ok(float(10.0)));
}

#[test]
fn a_result_that_is_no_finite_double_is_null() {
    assert_eq!(run("{}", "1e308 * 10"), Ok(Value::Null));
}

#[test]
fn an_operator_with_nothing_after_it_is_passed_over() {
    assert_eq!(run("{}", "3 +"), Ok(json("3")));
}

#[test]
fn an_operator_with_nothing_before_it_is_a_syntax_error() {
    assert_eq!(run("{}", "+ 3"), Err(Error::Syntax));
    assert_eq!(run("{}", "-1"), Err(Error::Syntax));
}

#[test]
fn what_is_no_template_is_a_syntax_error() {
    assert_eq!(run("{}", r#"{"a": "#), Err(Error::Syntax));
    assert_eq!(run("{}", "hello"), Err(Error::Syntax));
    assert_eq!(run("{}", ""), Err(Error::Syntax));
    assert_eq!(run("{}", ". | "), Err(Error::Syntax));
}

#[test]
fn a_quoted_string_is_never_a_path() {
    assert_eq!(run(r#"{"a": 1}"#, r#"".a""#), Ok(json(r#"".a""#)));
    assert_eq!(run(r#"{"a": 1}"#, r#"[".a", .a, "_x", "\\.a"]"#), Ok(json(r#"[".a", 1, "_x", "\\.a"]"#)));
    assert_eq!(run(r#"{"a": 1}"#, r#"{".a": .a, "_k": "a.b"}"#), Ok(json(r#"{".a": 1, "_k": "a.b"}"#)));
}

#[test]
fn a_decimal_point_begins_no_path() {
    assert_eq!(run("{}", "[1.5, 0.25]"), Ok(json("[1.5, 0.25]")));
    assert_eq!(run(r#"{"a": 2}"#, ".a * 1.5"), Ok(float(3.0)));
}

#[test]
fn a_template_holds_what_its_paths_select() {
    assert_eq!(
        run(r#"{"a": {"b": [1, 2]}, "c": "x"}"#, r#"{"p": .a.b[1], "q": [.c, .d], "r": .}"#),
        Ok(json(r#"{"p": 2, "q": ["x", null], "r": {"a": {"b": [1, 2]}, "c": "x"}}"#))
    );
}

#[test]
fn a_selected_string_is_not_read_again() {
    assert_eq!(run(r#"{"a": ".b", "b": 1}"#, ".a"), Ok(json(r#"".b""#)));
    assert_eq!(run(r#"{"a": "_x"}"#, "[.a]"), Ok(json(r#"["_x"]"#)));
}

#[test]
fn an_operand_is_resolved_against_the_input_of_its_stage() {
    assert_eq!(run(r#"{"a": 2, "b": 3}"#, ".a + .b * .a"), Ok(float(10.0)));
}

#[test]
fn a_stage_with_length_in_it_is_a_length() {
    assert_eq!(Parser::parse_pipe(&Value::Null, String::from(".a + length")), Ok(Parser::Length));
}

#[test]
fn a_chain_holds_each_operand_with_the_operator_before_it() {
    let stage = Parser::parse_pipe(&json(r#"{"a": 4}"#), String::from("1 - .a / 2 % 3")).unwrap();
    assert_eq!(
        stage,
        Parser::OperatorChain(vec![
            (Operator::Identity, json("1")),
            (Operator::Subtract, json("4")),
            (Operator::Divide { ignore_zero: false }, json("2")),
            (Operator::Modulo { ignore_zero: false }, json("3")),
        ])
    );
}

#[test]
fn a_wrapped_chain_passes_over_zero_from_there_on() {
    let stage = Parser::parse_pipe(&json("5"), String::from("1 / (2 % . / 3)?")).unwrap();
    assert_eq!(
        stage,
        Parser::OperatorChain(vec![
            (Operator::Identity, json("1")),
            (Operator::Divide { ignore_zero: false }, json("2")),
            (Operator::Modulo { ignore_zero: true }, json("5")),
            (Operator::Divide { ignore_zero: true }, json("3")),
        ])
    );
}

#[test]
fn a_stage_without_operators_is_a_template() {
    let stage = Parser::parse_pipe(&json(r#"{"a": 4}"#), String::from("[.a]")).unwrap();
    assert_eq!(stage, Parser::Template(json("[4]")));
}

#[test]
fn a_chain_is_reduced_from_left_to_right() {
    let chain = vec![
        (Operator::Identity, json("[1, 2]")),
        (Operator::Add, json("[3]")),
        (Operator::Subtract, json("[2]")),
    ];
    assert_eq!(JsonParser::json_data_operator(&chain, &fpu), Ok(json("[1, 3]")));
}

#[test]
fn an_identity_between_two_operands_is_a_syntax_error() {
    let chain = vec![(Operator::Identity, json("1")), (Operator::Identity, json("2"))];
    assert_eq!(JsonParser::json_data_operator(&chain, &fpu), Err(Error::Syntax));
}

#[test]
fn an_operator_is_named_by_its_character() {
    assert_eq!(Operator::from("+"), Operator::Add);
    assert_eq!(Operator::from("-"), Operator::Subtract);
    assert_eq!(Operator::from("*"), Operator::Multiply);
    assert_eq!(Operator::from("/"), Operator::Divide { ignore_zero: false });
    assert_eq!(Operator::from("%"), Operator::Modulo { ignore_zero: false });
    assert_eq!(Operator::from("++"), Operator::Identity);
    assert_eq!(Operator::from(""), Operator::Identity);
}

#[test]
fn stages_are_trimmed() {
    assert_eq!(
        Parser::split_pipe(&chars_of("  .a  |  .b | .c ")),
        (chars_of(".a"), Some(chars_of("  .b | .c ")))
    );
    assert_eq!(Parser::split_pipe(&chars_of("\t.a \n")), (chars_of(".a"), None));
}

#[test]
fn values_are_equal_whatever_the_order_of_their_fields() {
    assert_eq!(json(r#"{"a": 1, "b": [true]}"#), json(r#"{"b": [true], "a": 1}"#));
    assert_ne!(json(r#"{"a": 1}"#), json(r#"{"a": 1, "b": 2}"#));
    assert_ne!(json("[1, 2]"), json("[2, 1]"));
    assert_ne!(json("1"), json("1.0"));
    assert_eq!(json("0.0"), json("-0.0"));
}

#[test]
fn an_error_says_what_it_is() {
    assert_eq!(Error::Syntax.message(), "syntax error");
    assert_eq!(
        Error::TypeMismatch { left: Kind::Number, right: Kind::Array }.message(),
        "type mismatch: number and array"
    );
    assert_eq!(Error::DivisionByZero.message(), "division by zero");
    assert_eq!(Error::ModuloByZero.message(), "modulo by zero");
    assert_eq!(Error::UnsupportedLength.message(), "unsupported length");
    assert_eq!(Error::Format.message(), "format error");
    assert_eq!(Error::UnsupportedFormat.message(), "unsupported format");
}

#[test]
fn scenario_a_field_of_length_one() {
    assert_eq!(run(r#"{"a": 1}"#, ".a | length"), Ok(float(1.0)));
}

#[test]
fn scenario_an_array_of_two() {
    assert_eq!(run(r#"{"a": [{"a": 1}, {"b": 2}]}"#, ".a|length"), Ok(float(2.0)));
}

#[test]
fn scenario_the_last_write_wins() {
    assert_eq!(
        run(
            r#"{"a": "Hello", "b": 1, "c": true}"#,
            r#". | {"a": .a} + {"b": .b} + {"c": .c} + {"a": .c}"#
        ),
        Ok(json(r#"{"a": true, "b": 1, "c": true}"#))
    );
}

#[test]
fn scenario_a_text_is_split() {
    assert_eq!(run(r#""a, b,c,d, e""#, r#". / ", ""#), Ok(json(r#"["a", "b,c,d", "e"]"#)));
}

#[test]
fn scenario_a_zero_divisor_is_dropped() {
    assert_eq!(run("[1, 0, -1]", ".[] | (1 / .)?"), Ok(json("[1.0, -1.0]")));
}

#[test]
fn scenario_objects_are_multiplied() {
    assert_eq!(
        run("{}", r#"{"k": {"a": 1, "b": 2}} * {"k": {"a": 0, "c": 3}}"#),
        Ok(json(r#"{"k": {"a": 0.0, "b": 2, "c": 3}}"#))
    );
}

#[test]
fn white_space_of_any_kind_is_trimmed() {
    assert_eq!(
        Parser::split_pipe(&chars_of("\u{a0}\u{2003}.a\u{3000}\r\n")),
        (chars_of(".a"), None)
    );
    assert_eq!(run(r#"{"a": 1}"#, "\u{a0}.a\u{2028}|\u{85}length\u{205f}"), Ok(float(1.0)));
}

#[test]
fn a_key_is_letters_numbers_and_underscores() {
    assert_eq!(resolve(r#"{"café_1": {"名前": 2}}"#, ".café_1.名前"), json("2"));
    assert_eq!(run(r#"{"a-b": 1, "a": 5, "b": 2}"#, ".a-.b"), Ok(float(3.0)));
}
