use polysemic::answers::digest_with_answers;
use polysemic::digest::{digest, Answer, AnswerError, Outcome, Repair};
use polysemic::json::{parse, Value};
use polysemic::number::Number;
use polysemic::ontology::{Legislature, OntologySnapshot, Source};
use polysemic::reconcile::reconcile;
use polysemic::schema::{Field, Schema};

fn num(n: i64) -> Number {
    Number::from_int(n)
}

fn order_schema() -> Schema {
    Schema::obj(vec![
        Field::req("item", Schema::Str),
        Field::req("qty", Schema::num_range(num(1), num(99))),
        Field::opt("gift_wrap", Schema::Bool),
    ])
}

#[test]
fn strict_output_that_fits_the_schema_is_handed_back_unchanged() {
    let raw = r#"{"item": "espresso", "qty": 2, "gift_wrap": false, "note": "oat"}"#;
    let d = digest(raw, &order_schema()).unwrap();
    assert!(d.repairs.is_empty());
    match d.outcome {
        Outcome::Resolved(v) => assert_eq!(v, parse(raw).unwrap()),
        other => panic!("expected resolved, got {other:?}"),
    }
}

#[test]
fn any_change_to_the_value_is_on_the_ledger() {
    let raw = r#"{"item": "espresso", "qty": 2, "gift_wrap": null}"#;
    let d = digest(raw, &order_schema()).unwrap();
    assert_eq!(
        d.repairs,
        vec![Repair::DroppedNullOptional {
            path: "$.gift_wrap".into()
        }]
    );
    match d.outcome {
        Outcome::Resolved(v) => assert_ne!(v, parse(raw).unwrap()),
        other => panic!("expected resolved, got {other:?}"),
    }
}

#[test]
fn a_withheld_value_always_comes_with_a_question() {
    let raw = r#"{"item": "espresso", "qty": 120}"#;
    let d = digest(raw, &order_schema()).unwrap();
    match d.outcome {
        Outcome::Clarify(qs) => {
            assert_eq!(qs.len(), 1);
            assert_eq!(qs[0].path, "$.qty");
            assert_eq!(qs[0].prompt, "120 is outside the allowed range 1..=99");
        }
        other => panic!("expected clarification, got {other:?}"),
    }
}

#[test]
fn answering_nothing_is_digesting() {
    let raw = r#"{'item': 'espresso', 'qty': '2 or 3'}"#;
    let plain = digest(raw, &order_schema()).unwrap();
    let answered = digest_with_answers(raw, &order_schema(), Vec::new()).unwrap();
    assert_eq!(plain, answered);
}

#[test]
fn a_path_answered_twice_is_refused() {
    let raw = r#"{"item": "espresso", "qty": "2 or 3"}"#;
    let error = digest_with_answers(
        raw,
        &order_schema(),
        vec![
            Answer::new("$.qty", Value::Num(num(2))),
            Answer::new("$.qty", Value::Num(num(3))),
        ],
    )
    .unwrap_err();
    assert_eq!(error, AnswerError::Duplicate { path: "$.qty".into() });
}

#[test]
fn unanimous_samples_commit_their_value() {
    let s = r#"{"item": "espresso", "qty": 2}"#;
    let r = reconcile(&[s, s, s], &order_schema()).unwrap();
    match r.outcome {
        Outcome::Resolved(v) => assert_eq!(v, parse(s).unwrap()),
        other => panic!("expected resolved, got {other:?}"),
    }
    assert_eq!(r.per_sample.len(), 3);
}

#[test]
fn a_whole_value_needs_more_than_half_of_the_samples() {
    let two_of_three = reconcile(&["2", "2", "3"], &Schema::num()).unwrap();
    assert_eq!(two_of_three.outcome, Outcome::Resolved(Value::Num(num(2))));
    let one_of_two = reconcile(&["2", "3"], &Schema::num()).unwrap();
    match one_of_two.outcome {
        Outcome::Clarify(qs) => {
            assert_eq!(qs[0].prompt, "samples disagree with no majority");
            assert_eq!(qs[0].candidates, vec!["2", "3"]);
        }
        other => panic!("expected clarification, got {other:?}"),
    }
}

#[test]
fn a_snapshot_compared_with_itself_is_stable() {
    let s = OntologySnapshot::new(
        "family",
        "v1",
        &[("nuclear", "parents and children"), ("chosen", "kin by choice")],
    );
    let drift = s.compare(&s.duplicate());
    assert!(drift.is_empty());
    assert_eq!(drift.to_string(), "ontology \"family\" v1 → v1: +0 -0 ~0");
}

#[test]
fn case_and_space_edits_are_not_drift_but_words_are() {
    let a = OntologySnapshot::new("u", "v1", &[("metric", "  SI units\tand prefixes ")]);
    let b = OntologySnapshot::new("u", "v2", &[("metric", "si UNITS and   prefixes")]);
    let c = OntologySnapshot::new("u", "v3", &[("metric", "si units with prefixes")]);
    assert!(a.compare(&b).is_empty());
    assert_eq!(a.compare(&c).redefined, vec!["metric"]);
}

#[test]
fn a_repeal_undoes_an_enactment_and_the_latest_rule_wins() {
    let mut law = Legislature::new();
    assert!(law.enact("units", "metric", "EU market").is_ok());
    assert!(law.enact("units", "imperial", "US market").is_ok());
    let r = law.resolve("units", "grown");
    assert_eq!(r.value, "imperial");
    assert_eq!(
        r.source,
        Source::Legislated {
            rule: "units".into(),
            reason: "US market".into()
        }
    );
    assert!(law.repeal("units"));
    assert!(!law.repeal("units"));
    let r = law.resolve("units", "grown");
    assert_eq!(r.value, "grown");
    assert_eq!(r.source, Source::Grown);
}

#[test]
fn a_parsed_value_printed_reads_back_as_itself() {
    let src = "{ \"z\": [1e2, -0.50, 2.5E-3, 0], \"a\": \"tab\\there \\u0001 \\u00e9 \\ud83d\\ude00\", \"m\": {\"b\": null, \"a\": true} }";
    let v = parse(src).unwrap();
    let printed = v.to_string();
    assert_eq!(
        printed,
        "{\"a\":\"tab\\there \\u0001 \u{e9} \u{1F600}\",\"m\":{\"a\":true,\"b\":null},\"z\":[100,-0.5,0.0025,0]}"
    );
    assert_eq!(parse(&printed).unwrap(), v);
    assert_eq!(parse(&printed).unwrap().to_string(), printed);
}

#[test]
fn each_field_commits_what_more_than_half_of_the_samples_hold() {
    let a = r#"{"item": "latte", "qty": 2}"#;
    let b = r#"{"item": "latte", "qty": 3}"#;
    let c = r#"{"item": "mocha", "qty": 2, "size": "tall"}"#;
    let r = reconcile(&[a, b, c], &Schema::Any).unwrap();
    assert_eq!(
        r.outcome,
        Outcome::Clarify(vec![polysemic::digest::Question {
            path: "$.size".to_string(),
            prompt: "samples disagree on this field".to_string(),
            candidates: vec!["\"tall\"".to_string()],
        }])
    );
    let d = r#"{"item": "mocha", "qty": 2}"#;
    let r = reconcile(&[a, b, d], &Schema::Any).unwrap();
    assert_eq!(r.outcome, Outcome::Resolved(parse(r#"{"item": "latte", "qty": 2}"#).unwrap()));
}

#[test]
fn redefinition_reads_the_same_both_ways() {
    let a = OntologySnapshot::new("u", "v1", &[("a", "one"), ("b", "two"), ("c", "three")]);
    let b = OntologySnapshot::new("u", "v2", &[("b", "TWO"), ("c", "four"), ("d", "five")]);
    let ab = a.compare(&b);
    let ba = b.compare(&a);
    assert_eq!(ab.redefined, ba.redefined);
    assert_eq!(ab.redefined, vec!["c"]);
    assert_eq!(ab.added, ba.removed);
    assert_eq!(ab.removed, ba.added);
}

#[test]
fn forgetting_releases_exactly_the_marked_items_in_order() {
    let items = vec![(1u64, "a"), (2, "b"), (3, "c"), (4, "d")];
    let (kept, released) =
        polysemic::lethe::partition_marked(items, &vec![true, false, true]);
    assert_eq!(kept, vec![(2, "b"), (4, "d")]);
    assert_eq!(released, vec![(1, "a"), (3, "c")]);
}
