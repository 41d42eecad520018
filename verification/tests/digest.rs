use polysemic::answers::digest_with_answers;
use polysemic::digest::{digest, Answer, AnswerError, Outcome, Repair};
use polysemic::json::{parse, Value};
use polysemic::number::Number;
use polysemic::reconcile::reconcile;
use polysemic::schema::{Field, Schema};

fn num(n: i64) -> Number {
    Number::from_int(n)
}

fn order_schema() -> Schema {
    Schema::obj(vec![
        Field::req("item", Schema::Str),
        Field::req("qty", Schema::num_range(num(1), num(99))),
        Field::opt("gift_wrap", Schema::Bool),
    ])
}

#[test]
fn repairing_quotes_never_corrupts_the_text_the_quotes_carry() {
    let raw = "{'item': 'True love espresso', 'qty': 2}";
    let d = digest(raw, &order_schema()).unwrap();
    let Outcome::Resolved(value) = d.outcome else {
        panic!("expected resolved");
    };
    let obj = value.as_obj().unwrap();
    assert_eq!(obj.get("item").unwrap(), &Value::Str("True love espresso".into()));
}

#[test]
fn a_second_document_is_a_question_not_silent_loss() {
    let raw = r#"{"item":"espresso","qty":2} {"item":"tea","qty":9}"#;
    let d = digest(raw, &order_schema()).unwrap();
    let Outcome::Clarify(questions) = d.outcome else {
        panic!("choosing one document silently drops the other");
    };
    assert_eq!(questions.len(), 1);
    assert_eq!(questions[0].path, "$");
    assert_eq!(questions[0].candidates.len(), 2);
    assert!(questions[0].candidates[1].contains("tea"));

    let chosen = parse(&questions[0].candidates[1]).unwrap();
    let d = digest_with_answers(raw, &order_schema(), vec![Answer::new("$", chosen)]).unwrap();
    let Outcome::Resolved(value) = d.outcome else {
        panic!("expected resolved after choosing");
    };
    assert_eq!(
        value.as_obj().unwrap().get("item").unwrap(),
        &Value::Str("tea".to_string())
    );
    assert_eq!(d.answers.len(), 1);
}

#[test]
fn prose_braces_do_not_trigger_false_document_ambiguity() {
    let raw = "Here you go: {\"item\": \"espresso\", \"qty\": 2} {enjoy your day}";
    let d = digest(raw, &order_schema()).unwrap();
    assert!(d.is_resolved(), "outcome: {:?}", d.outcome);
}

#[test]
fn case_folding_between_two_options_is_a_question_not_a_coin_flip() {
    let schema = Schema::obj(vec![Field::req(
        "mode",
        Schema::choice(&["Read", "read", "write"]),
    )]);
    let d = digest(r#"{"mode": "WRITE"}"#, &schema).unwrap();
    assert!(d.is_resolved());
    assert!(matches!(d.repairs.last(), Some(Repair::CaseFolded { .. })));
    let d = digest(r#"{"mode": "READ"}"#, &schema).unwrap();
    let Outcome::Clarify(questions) = d.outcome else {
        panic!("expected clarify");
    };
    assert_eq!(questions[0].candidates, vec!["Read", "read"]);
}

#[test]
fn digests_fenced_output_with_trailing_comma() {
    let raw = "Sure! Here's the order:\n```json\n{\"item\": \"espresso\", \"qty\": 2,}\n```";
    let d = digest(raw, &order_schema()).unwrap();
    assert!(d.is_resolved());
    assert!(d.repairs.contains(&Repair::StrippedFence));
    assert!(d.repairs.contains(&Repair::RemovedTrailingCommas));
}

#[test]
fn null_on_an_optional_field_is_a_named_drop_not_a_question() {
    let raw = r#"{"item": "espresso", "qty": 2, "gift_wrap": null}"#;
    let d = digest(raw, &order_schema()).unwrap();
    let Outcome::Resolved(value) = &d.outcome else {
        panic!("expected resolved, not a question about a stated absence");
    };
    assert!(value.as_obj().unwrap().get("gift_wrap").is_none());
    assert!(
        d.repairs.contains(&Repair::DroppedNullOptional {
            path: "$.gift_wrap".to_string()
        }),
        "repairs: {:?}",
        d.repairs
    );
}

#[test]
fn null_on_an_optional_any_field_is_a_preserved_value_not_a_drop() {
    let schema = Schema::obj(vec![
        Field::req("item", Schema::Str),
        Field::opt("note", Schema::Any),
    ]);
    let raw = r#"{"item": "espresso", "note": null}"#;
    let d = digest(raw, &schema).unwrap();
    let Outcome::Resolved(value) = &d.outcome else {
        panic!("expected resolved");
    };
    assert_eq!(value.as_obj().unwrap().get("note"), Some(&Value::Null));
    assert!(
        !d.repairs
            .iter()
            .any(|r| matches!(r, Repair::DroppedNullOptional { .. })),
        "repairs: {:?}",
        d.repairs
    );
}

#[test]
fn ambiguity_becomes_a_question_not_a_coin_flip() {
    let raw = r#"{"item": "espresso", "qty": "2 or 3"}"#;
    let d = digest(raw, &order_schema()).unwrap();
    match d.outcome {
        Outcome::Clarify(qs) => {
            assert_eq!(qs.len(), 1);
            assert_eq!(qs[0].path, "$.qty");
            assert_eq!(qs[0].candidates, vec!["2", "3"]);
        }
        other => panic!("expected clarification, got {other:?}"),
    }
}

#[test]
fn a_requested_answer_is_applied_and_recorded() {
    let raw = r#"{"item": "espresso", "qty": "2 or 3"}"#;
    let d = digest_with_answers(
        raw,
        &order_schema(),
        vec![Answer::new("$.qty", Value::Num(num(2)))],
    )
    .unwrap();

    assert!(d.is_resolved());
    assert_eq!(d.answers, vec![Answer::new("$.qty", Value::Num(num(2)))]);
    match d.outcome {
        Outcome::Resolved(Value::Obj(object)) => {
            assert_eq!(object.get("qty"), Some(&Value::Num(num(2))));
        }
        other => panic!("expected answered value, got {other:?}"),
    }
}

#[test]
fn a_missing_required_field_can_be_answered() {
    let raw = r#"{"item": "espresso"}"#;
    let d = digest_with_answers(
        raw,
        &order_schema(),
        vec![Answer::new("$.qty", Value::Num(num(2)))],
    )
    .unwrap();

    match d.outcome {
        Outcome::Resolved(Value::Obj(object)) => {
            assert_eq!(object.get("qty"), Some(&Value::Num(num(2))));
        }
        other => panic!("expected answered value, got {other:?}"),
    }
}

#[test]
fn answers_cannot_mutate_paths_digest_did_not_question() {
    let raw = r#"{"item": "espresso", "qty": "2 or 3"}"#;
    let error = digest_with_answers(
        raw,
        &order_schema(),
        vec![Answer::new("$.item", Value::Str("tea".into()))],
    )
    .unwrap_err();

    assert_eq!(
        error,
        AnswerError::NotRequested {
            path: "$.item".into()
        }
    );
}

#[test]
fn answers_support_ambiguous_array_members() {
    let raw = r#"["2 or 3"]"#;
    let d = digest_with_answers(
        raw,
        &Schema::Arr(Box::new(Schema::num())),
        vec![Answer::new("$[0]", Value::Num(num(3)))],
    )
    .unwrap();

    assert!(d.is_resolved());
}

#[test]
fn honest_coercions_are_named() {
    let raw = r#"{"item": "espresso", "qty": "2", "gift_wrap": "yes"}"#;
    let d = digest(raw, &order_schema()).unwrap();
    assert!(d.is_resolved());
    assert_eq!(
        d.repairs
            .iter()
            .filter(|r| matches!(r, Repair::Coerced { .. }))
            .count(),
        2
    );
}

#[test]
fn hedges_resolve_with_a_record() {
    let raw = r#"{"item": "espresso", "qty": "~3"}"#;
    let d = digest(raw, &order_schema()).unwrap();
    assert!(d.is_resolved());
    assert!(d
        .repairs
        .iter()
        .any(|r| matches!(r, Repair::HedgeResolved { .. })));
}

#[test]
fn unknown_keys_are_extra_meaning_not_error() {
    let raw = r#"{"item": "espresso", "qty": 1, "note": "oat milk"}"#;
    let d = digest(raw, &order_schema()).unwrap();
    match d.outcome {
        Outcome::Resolved(Value::Obj(m)) => assert!(m.contains_key("note")),
        other => panic!("expected resolved object, got {other:?}"),
    }
}

#[test]
fn python_flavored_output_is_repaired() {
    let raw = "{'item': 'espresso', 'qty': 2, 'gift_wrap': True}";
    let d = digest(raw, &order_schema()).unwrap();
    assert!(d.is_resolved());
    assert!(d.repairs.contains(&Repair::RequotedStrings));
    assert!(d.repairs.contains(&Repair::PythonLiterals));
}

#[test]
fn bare_keys_are_quoted() {
    let raw = r#"{item: "espresso", qty: 2}"#;
    let d = digest(raw, &order_schema()).unwrap();
    assert!(d.is_resolved());
    assert!(d.repairs.contains(&Repair::QuotedKeys));
}

#[test]
fn reconcile_takes_field_majority_and_asks_about_dissent() {
    let s1 = r#"{"item": "espresso", "qty": 2}"#;
    let s2 = r#"{"item": "espresso", "qty": 2}"#;
    let s3 = r#"{"item": "espresso", "qty": 3}"#;
    let r = reconcile(&[s1, s2, s3], &order_schema()).unwrap();
    match r.outcome {
        Outcome::Resolved(Value::Obj(m)) => {
            assert_eq!(m.get("qty"), Some(&Value::Num(num(2))));
        }
        other => panic!("expected majority resolution, got {other:?}"),
    }
}

#[test]
fn reconcile_with_no_majority_asks() {
    let s1 = r#"{"qty": 1, "item": "a"}"#;
    let s2 = r#"{"qty": 2, "item": "a"}"#;
    let r = reconcile(&[s1, s2], &Schema::Any).unwrap();
    assert!(matches!(r.outcome, Outcome::Clarify(_)));
}

#[test]
fn reconcile_never_discards_a_clarifying_sample() {
    let resolved = r#"{"item":"espresso","qty":2}"#;
    let ambiguous = r#"{"item":"espresso","qty":"2 or 3"}"#;

    let reconciliation = reconcile(&[resolved, ambiguous, ambiguous], &order_schema()).unwrap();

    match reconciliation.outcome {
        Outcome::Clarify(questions) => {
            assert_eq!(questions.len(), 1);
            assert_eq!(questions[0].path, "$.qty");
        }
        other => panic!("expected clarification, got {other:?}"),
    }
}

#[test]
fn reconcile_merges_candidates_for_the_same_path() {
    let first = r#"{"item":"espresso","qty":"2 or 3"}"#;
    let second = r#"{"item":"espresso","qty":"4 or 5"}"#;

    let reconciliation = reconcile(&[first, second], &order_schema()).unwrap();

    match reconciliation.outcome {
        Outcome::Clarify(questions) => {
            assert_eq!(questions.len(), 1);
            assert_eq!(questions[0].path, "$.qty");
            assert_eq!(questions[0].candidates, ["2", "3", "4", "5"]);
        }
        other => panic!("expected clarification, got {other:?}"),
    }
}

#[test]
fn reconcile_rejects_an_empty_sample_set() {
    let error = reconcile(&[], &order_schema()).unwrap_err();
    assert!(error.msg.contains("at least one sample"));
}

#[test]
fn tri_state_null_schemas_are_rejected_at_the_boundary_not_mismodeled() {
    let err = Schema::from_json_schema(
        r#"{"type": "object", "properties": {"col": {"type": ["string", "null"]}}}"#,
    )
    .expect_err("nullable union types must not load");
    assert!(err.path.contains("col"), "path: {}", err.path);
}

#[test]
fn json_schema_subset_drives_digestion() {
    let schema = Schema::from_json_schema(
        r#"{
            "type": "object",
            "properties": {
                "item": {"type": "string"},
                "qty": {"type": "number", "minimum": 1, "maximum": 99},
                "gift_wrap": {"type": "boolean"},
                "size": {"enum": ["small", "double", "triple"]}
            },
            "required": ["item", "qty"]
        }"#,
    )
    .unwrap();

    let d = digest(
        r#"{"item":"espresso","qty":"2 or 3","size":"DOUBLE"}"#,
        &schema,
    )
    .unwrap();
    assert_eq!(d.repairs[0].code(), "case_folded");
    assert!(matches!(d.outcome, Outcome::Clarify(_)));
}

#[test]
fn unsupported_schema_constraints_are_rejected() {
    let error =
        Schema::from_json_schema(r#"{"type":"string","pattern":"^[a-z]+$"}"#).unwrap_err();

    assert_eq!(error.path, "$schema.pattern");
    assert!(error.message.contains("refuses to ignore"));
}

#[test]
fn invalid_schema_range_is_rejected() {
    let error =
        Schema::from_json_schema(r#"{"type":"number","minimum":10,"maximum":1}"#).unwrap_err();

    assert!(error.message.contains("minimum"));
}

#[test]
fn a_parse_error_becomes_an_answer_error_that_names_it() {
    let e = polysemic::json::ParseError { at: 3, msg: "unexpected character".to_string() };
    let a = AnswerError::from(e.clone());
    assert_eq!(a, AnswerError::Parse(e));
    assert_eq!(a.to_string(), "parse error at byte 3: unexpected character");
}
