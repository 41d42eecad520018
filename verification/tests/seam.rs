use polysemic::digest::{Answer, AnswerError, Repair};
use polysemic::json::{parse, ParseError, Value};
use polysemic::number::Number;
use polysemic::seam::{
    digestion_envelope, failure_envelope, metabolize, parse_answer, repair_value, DigestFailure,
};

const DEMO_SCHEMA: &str = r#"{
  "type": "object",
  "properties": {
    "item": {"type": "string"},
    "qty": {"type": "number", "minimum": 1, "maximum": 99},
    "gift_wrap": {"type": "boolean"},
    "size": {"type": "string", "enum": ["small", "double", "triple"]}
  },
  "required": ["item", "qty"]
}"#;

const DEMO_OUTPUT: &str = "Sure — here's the order you asked for:\n```json\n{'item': 'espresso', 'qty': '2 or 3', 'gift_wrap': True,}\n```\nLet me know if you need anything else!";

fn status(envelope: &Value) -> Option<&str> {
    match envelope {
        Value::Obj(object) => match object.get("status") {
            Some(Value::Str(status)) => Some(status),
            _ => None,
        },
        _ => None,
    }
}

fn member<'a>(value: &'a Value, key: &str) -> &'a Value {
    value.as_obj().unwrap().get(key).unwrap()
}

#[test]
fn ambiguous_output_has_a_distinct_exit_status() {
    let (envelope, code) = metabolize(DEMO_SCHEMA, DEMO_OUTPUT, None);
    assert_eq!(code, 2);
    assert_eq!(status(&envelope), Some("clarify"));
}

#[test]
fn requested_answer_resolves_the_output() {
    let (envelope, code) = metabolize(
        DEMO_SCHEMA,
        DEMO_OUTPUT,
        Some(vec![Answer::new("$.qty", Value::Num(Number::from_int(2)))]),
    );
    assert_eq!(code, 0);
    assert_eq!(status(&envelope), Some("resolved"));
    assert!(parse(&envelope.to_string()).is_ok());
}

#[test]
fn unrelated_answer_is_rejected() {
    let (envelope, code) = metabolize(
        DEMO_SCHEMA,
        DEMO_OUTPUT,
        Some(vec![Answer::new("$.item", Value::Str("tea".into()))]),
    );
    assert_eq!(code, 1);
    assert_eq!(status(&envelope), Some("rejected"));
}

#[test]
fn the_clarify_envelope_keeps_repairs_and_questions_apart() {
    let (envelope, _) = metabolize(DEMO_SCHEMA, DEMO_OUTPUT, None);
    assert_eq!(member(&envelope, "answers").to_string(), "[]");
    let repairs = member(&envelope, "repairs").to_string();
    assert!(repairs.starts_with("[{\"code\":\"stripped_fence\""));
    assert!(repairs.contains("\"code\":\"python_literals\""));
    assert_eq!(
        member(&envelope, "questions").to_string(),
        "[{\"candidates\":[\"2\",\"3\"],\"path\":\"$.qty\",\"prompt\":\"\\\"2 or 3\\\" holds two readings — which did they mean?\"}]"
    );
}

#[test]
fn the_resolved_envelope_records_the_answer_and_the_value() {
    let (envelope, _) = metabolize(
        DEMO_SCHEMA,
        DEMO_OUTPUT,
        Some(vec![Answer::new("$.qty", Value::Num(Number::from_int(2)))]),
    );
    assert_eq!(member(&envelope, "answers").to_string(), "[{\"path\":\"$.qty\",\"value\":2}]");
    assert_eq!(
        member(&envelope, "value").to_string(),
        "{\"gift_wrap\":true,\"item\":\"espresso\",\"qty\":2}"
    );
}

#[test]
fn an_unsupported_schema_is_rejected_with_its_path() {
    let (envelope, code) = metabolize(r#"{"type":"string","pattern":"^a"}"#, "\"a\"", None);
    assert_eq!(code, 1);
    let error = member(&envelope, "error");
    assert_eq!(member(error, "stage").to_string(), "\"schema\"");
    assert_eq!(member(error, "code").to_string(), "\"unsupported_schema\"");
    assert_eq!(member(error, "path").to_string(), "\"$schema.pattern\"");
}

#[test]
fn unrecoverable_output_is_rejected_at_its_byte() {
    let (envelope, code) = metabolize(DEMO_SCHEMA, "no json here at all", None);
    assert_eq!(code, 1);
    let error = member(&envelope, "error");
    assert_eq!(member(error, "stage").to_string(), "\"output\"");
    assert_eq!(member(error, "code").to_string(), "\"unrecoverable_output\"");
    assert!(member(error, "path").to_string().starts_with("\"byte "));
}

#[test]
fn each_failure_names_its_stage_and_code() {
    let cases = [
        (
            DigestFailure::Answer(AnswerError::Duplicate { path: "$.qty".into() }),
            "{\"error\":{\"code\":\"duplicate_answer\",\"message\":\"the same path was answered more than once\",\"path\":\"$.qty\",\"stage\":\"answer\"},\"status\":\"rejected\"}",
        ),
        (
            DigestFailure::Answer(AnswerError::InvalidPath { path: "$[9]".into() }),
            "{\"error\":{\"code\":\"invalid_path\",\"message\":\"the questioned path cannot be updated in this value\",\"path\":\"$[9]\",\"stage\":\"answer\"},\"status\":\"rejected\"}",
        ),
        (
            DigestFailure::Parse(ParseError { at: 4, msg: "unexpected character".into() }),
            "{\"error\":{\"code\":\"unrecoverable_output\",\"message\":\"unexpected character\",\"path\":\"byte 4\",\"stage\":\"output\"},\"status\":\"rejected\"}",
        ),
    ];
    for (failure, expected) in cases {
        assert_eq!(failure_envelope(failure).to_string(), expected);
    }
}

#[test]
fn repairs_carry_their_code_and_what_they_read() {
    let coerced = Repair::Coerced { path: "$.qty".into(), from: "string \"2\"".into(), to: "number".into() };
    assert_eq!(
        repair_value(&coerced).to_string(),
        "{\"code\":\"coerced\",\"from\":\"string \\\"2\\\"\",\"message\":\"coerced $.qty: string \\\"2\\\" → number\",\"path\":\"$.qty\",\"to\":\"number\"}"
    );
    assert_eq!(
        repair_value(&Repair::QuotedKeys).to_string(),
        "{\"code\":\"quoted_keys\",\"message\":\"quoted bare object keys\"}"
    );
    let folded = Repair::CaseFolded { path: "$.size".into(), original: "DOUBLE".into() };
    assert_eq!(
        repair_value(&folded).to_string(),
        "{\"code\":\"case_folded\",\"message\":\"case-folded $.size: \\\"DOUBLE\\\"\",\"original\":\"DOUBLE\",\"path\":\"$.size\"}"
    );
}

#[test]
fn answers_are_read_as_a_path_and_a_strict_json_value() {
    let a = parse_answer("$.size=\"double\"").unwrap();
    assert_eq!(a.path, "$.size");
    assert_eq!(a.value, Value::Str("double".into()));
    let b = parse_answer("$.note=a=b").unwrap_err();
    assert_eq!(b, "invalid JSON value for $.note: parse error at byte 0: unexpected character");
    assert_eq!(parse_answer("qty").unwrap_err(), "expected '$.path=<json>'");
    assert_eq!(
        parse_answer("qty=2").unwrap_err(),
        "answer path \"qty\" must start with `$`"
    );
    assert_eq!(parse_answer("$[0]=3").unwrap().value, Value::Num(Number::from_int(3)));
}

#[test]
fn a_digestion_envelope_has_no_status_until_it_is_written() {
    let d = polysemic::digest::digest("{\"a\": 1}", &polysemic::schema::Schema::Any).unwrap();
    assert_eq!(
        digestion_envelope(&d).to_string(),
        "{\"answers\":[],\"repairs\":[],\"status\":\"resolved\",\"value\":{\"a\":1}}"
    );
}
