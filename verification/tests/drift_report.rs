use polysemic::drift_report::{
    analyze, behavior_probe_changed, parse_envelope, parse_provenance, semantic_probe_changed,
    status,
};
use polysemic::json::{parse, Value};
use polysemic::provenance::Labor;

const DEMO_BASELINE: &str = r#"{
  "artifact": {
    "id": "family-support-router",
    "version": "model-v1",
    "source_uri": "urn:strata:artifact:family-support-router:model-v1",
    "sha256": "3F9A0C5E1B7D2A4C6E8F0A1B3C5D7E9F1A2B3C4D5E6F7A8B9C0D1E2F3A4B5C6D"
  },
  "provenance": {
    "corpus": "archived-support-tickets",
    "source_uri": "urn:strata:corpus:support-tickets-2018-2019",
    "sha256": "0b1c2d3e4f5a6b7c8d9e0f1a2b3c4d5e6f7a8b9c0d1e2f3a4b5c6d7e8f9a0b1c",
    "tokens": 4200000,
    "vintage": "2018-2019",
    "languages": [
      { "code": "en", "share": 0.94 },
      { "code": "other", "share": 0.06 }
    ],
    "annotator_labor": "uncredited",
    "notes": ["labels inherited from ticket triage"]
  },
  "ontology": {
    "name": "family-structure",
    "version": "model-v1",
    "concepts": {
      "nuclear": "two married parents and their dependent children",
      "single_parent": "one parent raising dependent children alone",
      "other": "any household outside the named structures"
    }
  },
  "behavior": {
    "cases": {
      "chosen-caregiver": {
        "input": "Alex names a chosen-family caregiver as their emergency contact",
        "classification": "other",
        "route": "manual-review"
      }
    }
  }
}"#;

const DEMO_OBSERVED: &str = r#"{
  "artifact": {
    "id": "family-support-router",
    "version": "candidate-v2",
    "source_uri": "urn:strata:artifact:family-support-router:candidate-v2",
    "sha256": "7c6b5a4f3e2d1c0b9a8f7e6d5c4b3a2f1e0d9c8b7a6f5e4d3c2b1a0f9e8d7c6b"
  },
  "provenance": {
    "corpus": "reviewed-support-conversations",
    "source_uri": "urn:strata:corpus:support-2026",
    "sha256": "aa11bb22cc33dd44ee55ff66aa77bb88cc99dd00ee11ff22aa33bb44cc55dd66",
    "tokens": 1800000,
    "vintage": "2026",
    "languages": [
      { "code": "en", "share": 0.81 },
      { "code": "es", "share": 0.12 },
      { "code": "other", "share": 0.07 }
    ],
    "annotator_labor": "credited",
    "notes": ["reviewed by support staff and affected users"]
  },
  "ontology": {
    "name": "family-structure",
    "version": "candidate-v2",
    "concepts": {
      "nuclear": "a household's primary care network",
      "chosen": "people intentionally recognized as family",
      "other": "any household outside the named structures"
    }
  },
  "behavior": {
    "cases": {
      "chosen-caregiver": {
        "input": "Alex names a chosen-family caregiver as their emergency contact",
        "classification": "chosen",
        "route": "family-support"
      }
    }
  }
}"#;

fn member<'a>(value: &'a Value, key: &str) -> &'a Value {
    value.as_obj().unwrap().get(key).unwrap()
}

#[test]
fn demo_detects_and_serializes_semantic_drift() {
    let (report, code) = analyze(DEMO_BASELINE, DEMO_OBSERVED, "nuclear", "chosen-caregiver");
    assert_eq!(code, 2);
    assert_eq!(status(&report), Some("drift_detected".to_string()));
    assert!(parse(&report.to_string()).is_ok());

    let object = report.as_obj().unwrap();
    let comparison = object.get("comparison").unwrap().as_obj().unwrap();
    let probe = comparison.get("semantic_probe").unwrap().as_obj().unwrap();
    assert_eq!(probe.get("changed"), Some(&Value::Bool(true)));
    assert_eq!(semantic_probe_changed(&report), Some(true));
    assert_eq!(behavior_probe_changed(&report), Some(true));

    let behavior = comparison.get("behavior_probe").unwrap().as_obj().unwrap();
    let baseline = behavior.get("baseline").unwrap().as_obj().unwrap();
    let observed = behavior.get("observed").unwrap().as_obj().unwrap();
    assert_eq!(baseline.get("classification"), Some(&Value::Str("other".into())));
    assert_eq!(observed.get("classification"), Some(&Value::Str("chosen".into())));
}

#[test]
fn identical_envelopes_are_stable() {
    let (report, code) = analyze(DEMO_BASELINE, DEMO_BASELINE, "nuclear", "chosen-caregiver");
    assert_eq!(code, 0);
    assert_eq!(status(&report), Some("stable".to_string()));
}

#[test]
fn provenance_is_preserved_on_both_sides() {
    let (report, _) = analyze(DEMO_BASELINE, DEMO_OBSERVED, "chosen", "chosen-caregiver");
    let envelopes = report.as_obj().unwrap().get("envelopes").unwrap().as_obj().unwrap();
    for side in ["baseline", "observed"] {
        let provenance = envelopes
            .get(side)
            .unwrap()
            .as_obj()
            .unwrap()
            .get("provenance")
            .unwrap()
            .as_obj()
            .unwrap();
        assert!(provenance.contains_key("corpus"));
        assert!(provenance.contains_key("annotator_labor"));
        assert!(provenance.contains_key("source_uri"));
        assert!(provenance.contains_key("sha256"));
    }
}

#[test]
fn invalid_language_shares_are_rejected() {
    let invalid = DEMO_BASELINE.replace(
        "{ \"code\": \"other\", \"share\": 0.06 }",
        "{ \"code\": \"other\", \"share\": 0.60 }",
    );
    let (report, code) = analyze(&invalid, DEMO_OBSERVED, "nuclear", "chosen-caregiver");
    assert_eq!(code, 1);
    assert_eq!(status(&report), Some("rejected".to_string()));
    assert!(report.to_string().contains("language shares must total"));
}

#[test]
fn unrelated_artifacts_are_rejected() {
    let unrelated = DEMO_OBSERVED.replace("family-support-router", "risk-router");
    let (report, code) = analyze(DEMO_BASELINE, &unrelated, "nuclear", "chosen-caregiver");
    assert_eq!(code, 1);
    assert_eq!(status(&report), Some("rejected".to_string()));
    assert!(report.to_string().contains("artifact mismatch"));
}

#[test]
fn unknown_envelope_fields_are_rejected_instead_of_dropped() {
    let extended = DEMO_BASELINE.replace(
        "\"corpus\": \"archived-support-tickets\"",
        "\"license\": \"consent-required\",\n    \"corpus\": \"archived-support-tickets\"",
    );
    let (report, code) = analyze(&extended, DEMO_OBSERVED, "nuclear", "chosen-caregiver");
    assert_eq!(code, 1);
    assert_eq!(status(&report), Some("rejected".to_string()));
    assert!(report.to_string().contains("$.provenance.license"));
    assert!(report.to_string().contains("unknown field"));
}

#[test]
fn unknown_probe_is_rejected_instead_of_reported_stable() {
    let (report, code) = analyze(DEMO_BASELINE, DEMO_BASELINE, "nucelar", "chosen-caregiver");
    assert_eq!(code, 1);
    assert_eq!(status(&report), Some("rejected".to_string()));
    assert!(report.to_string().contains("unknown_probe"));
}

#[test]
fn unknown_behavior_case_is_rejected() {
    let (report, code) = analyze(DEMO_BASELINE, DEMO_OBSERVED, "nuclear", "missing-case");
    assert_eq!(code, 1);
    assert_eq!(status(&report), Some("rejected".to_string()));
    assert!(report.to_string().contains("invalid_behavior_probe"));
}

#[test]
fn the_report_lists_the_ontology_diff_in_key_order() {
    let (report, _) = analyze(DEMO_BASELINE, DEMO_OBSERVED, "nuclear", "chosen-caregiver");
    let ontology = member(member(&report, "comparison"), "ontology");
    assert_eq!(member(ontology, "added").to_string(), "[\"chosen\"]");
    assert_eq!(member(ontology, "removed").to_string(), "[\"single_parent\"]");
    assert_eq!(member(ontology, "redefined").to_string(), "[\"nuclear\"]");
    assert_eq!(member(ontology, "name").to_string(), "\"family-structure\"");
    assert_eq!(member(ontology, "from_version").to_string(), "\"model-v1\"");
    assert_eq!(member(ontology, "to_version").to_string(), "\"candidate-v2\"");
}

#[test]
fn an_unchanged_concept_is_probed_as_stable_but_drift_still_routes() {
    let (report, code) = analyze(DEMO_BASELINE, DEMO_OBSERVED, "other", "chosen-caregiver");
    assert_eq!(code, 2);
    assert_eq!(semantic_probe_changed(&report), Some(false));
    let probe = member(member(&report, "comparison"), "semantic_probe");
    assert_eq!(
        member(member(probe, "baseline"), "definition").to_string(),
        "\"any household outside the named structures\""
    );
    assert_eq!(member(member(probe, "observed"), "recognized").to_string(), "true");
}

#[test]
fn a_concept_known_to_one_side_is_probed_with_a_null_definition() {
    let (report, _) = analyze(DEMO_BASELINE, DEMO_OBSERVED, "chosen", "chosen-caregiver");
    let probe = member(member(&report, "comparison"), "semantic_probe");
    assert_eq!(member(probe, "baseline").to_string(), "{\"definition\":null,\"recognized\":false}");
    assert_eq!(semantic_probe_changed(&report), Some(true));
}

#[test]
fn digests_are_lowercased_and_tokens_kept_whole() {
    let envelope = parse_envelope(DEMO_BASELINE).unwrap();
    assert_eq!(
        envelope.artifact_sha256,
        "3f9a0c5e1b7d2a4c6e8f0a1b3c5d7e9f1a2b3c4d5e6f7a8b9c0d1e2f3a4b5c6d"
    );
    assert_eq!(envelope.provenance.tokens, 4_200_000);
    assert_eq!(envelope.provenance.annotator_labor, Labor::Uncredited);
    assert_eq!(envelope.provenance.languages.len(), 2);
    assert_eq!(envelope.provenance.notes, vec!["labels inherited from ticket triage"]);
    assert_eq!(envelope.ontology.concepts.len(), 3);
    let (report, _) = analyze(DEMO_BASELINE, DEMO_OBSERVED, "nuclear", "chosen-caregiver");
    let tokens = member(
        member(member(member(&report, "envelopes"), "baseline"), "provenance"),
        "tokens",
    );
    assert_eq!(tokens.to_string(), "4200000");
}

#[test]
fn invalid_json_is_refused_with_its_byte_offset() {
    let (report, code) = analyze("{\"artifact\": }", DEMO_OBSERVED, "nuclear", "chosen-caregiver");
    assert_eq!(code, 1);
    let error = member(&report, "error");
    assert_eq!(member(error, "stage").to_string(), "\"baseline\"");
    assert_eq!(member(error, "code").to_string(), "\"invalid_envelope\"");
    assert_eq!(member(error, "path").to_string(), "\"byte 13\"");
    assert!(member(error, "message").to_string().starts_with("\"invalid JSON: "));
}

#[test]
fn the_share_total_names_what_it_got() {
    let invalid = DEMO_BASELINE.replace(
        "{ \"code\": \"other\", \"share\": 0.06 }",
        "{ \"code\": \"other\", \"share\": 0.60 }",
    );
    let envelope = parse_envelope(&invalid).unwrap_err();
    assert_eq!(envelope.path, "$.provenance.languages");
    assert_eq!(envelope.message, "language shares must total 1.0; got 1.54");
    let close = DEMO_BASELINE.replace("0.06 }", "0.0600004 }");
    assert!(parse_envelope(&close).is_ok());
    let far = DEMO_BASELINE.replace("0.06 }", "0.060002 }");
    assert_eq!(
        parse_envelope(&far).unwrap_err().message,
        "language shares must total 1.0; got 1.000002"
    );
}

#[test]
fn each_label_refusal_names_its_path() {
    let cases = [
        (
            "{ \"code\": \"other\", \"share\": 0.06 }",
            "{ \"code\": \"en\", \"share\": 0.06 }",
            "$.provenance.languages[1].code",
            "duplicate language code \"en\"",
        ),
        (
            "{ \"code\": \"other\", \"share\": 0.06 }",
            "{ \"code\": \"other\", \"share\": -0.06 }",
            "$.provenance.languages[1].share",
            "share must be a finite number between 0 and 1",
        ),
        (
            "\"tokens\": 4200000",
            "\"tokens\": 4200000.5",
            "$.provenance.tokens",
            "expected a non-negative integer no larger than JSON's exact-integer limit",
        ),
        (
            "\"tokens\": 4200000",
            "\"tokens\": 9007199254740992",
            "$.provenance.tokens",
            "expected a non-negative integer no larger than JSON's exact-integer limit",
        ),
        (
            "\"annotator_labor\": \"uncredited\"",
            "\"annotator_labor\": \"volunteer\"",
            "$.provenance.annotator_labor",
            "expected `credited` or `uncredited`",
        ),
        (
            "\"vintage\": \"2018-2019\"",
            "\"vintage\": \"  \"",
            "$.provenance.vintage",
            "string must not be empty",
        ),
        (
            "\"notes\": [\"labels inherited from ticket triage\"]",
            "\"notes\": [\"ok\", 7]",
            "$.provenance.notes[1]",
            "expected string, got number",
        ),
        (
            "\"sha256\": \"0b1c",
            "\"sha256\": \"zb1c",
            "$.provenance.sha256",
            "expected a 64-character SHA-256 hex digest",
        ),
        (
            "\"single_parent\": \"one parent raising dependent children alone\",",
            "\"   \": \"a blank name\",",
            "$.ontology.concepts",
            "concept names must not be empty",
        ),
        (
            "\"classification\": \"other\",",
            "",
            "$.behavior.cases.chosen-caregiver.classification",
            "required field is missing",
        ),
    ];
    for (from, to, path, message) in cases {
        let edited = DEMO_BASELINE.replace(from, to);
        let error = parse_envelope(&edited).unwrap_err();
        assert_eq!(error.path, path);
        assert_eq!(error.message, message);
        assert_eq!(error.to_string(), format!("{path}: {message}"));
    }
}

#[test]
fn a_label_is_read_by_itself() {
    let value = parse(
        "{\"corpus\":\"c\",\"source_uri\":\"u\",\"sha256\":\"ABCDEF0123456789ABCDEF0123456789ABCDEF0123456789ABCDEF0123456789\",\"tokens\":3,\"vintage\":\"v\",\"languages\":[{\"code\":\"en\",\"share\":1}],\"annotator_labor\":\"credited\",\"notes\":[]}",
    )
    .unwrap();
    let label = parse_provenance(&value).unwrap();
    assert_eq!(
        label.corpus_sha256,
        "abcdef0123456789abcdef0123456789abcdef0123456789abcdef0123456789"
    );
    assert_eq!(label.annotator_labor, Labor::Credited);
    assert!(label.notes.is_empty());
    let empty = parse("{\"corpus\":\"c\",\"source_uri\":\"u\",\"sha256\":\"ABCDEF0123456789ABCDEF0123456789ABCDEF0123456789ABCDEF0123456789\",\"tokens\":3,\"vintage\":\"v\",\"languages\":[],\"annotator_labor\":\"credited\",\"notes\":[]}").unwrap();
    let error = parse_provenance(&empty).unwrap_err();
    assert_eq!(error.message, "at least one language share is required");
    assert_eq!(parse_provenance(&Value::Null).unwrap_err().message, "expected object, got null");
}

#[test]
fn blank_probes_and_cases_are_refused() {
    let (report, code) = analyze(DEMO_BASELINE, DEMO_OBSERVED, "  ", "chosen-caregiver");
    assert_eq!(code, 1);
    assert_eq!(member(member(&report, "error"), "code").to_string(), "\"invalid_probe\"");
    let (report, code) = analyze(DEMO_BASELINE, DEMO_OBSERVED, "nuclear", "");
    assert_eq!(code, 1);
    assert_eq!(member(member(&report, "error"), "code").to_string(), "\"invalid_case\"");
    assert_eq!(member(member(&report, "error"), "path").to_string(), "\"$.case\"");
}

#[test]
fn a_changed_case_input_is_refused() {
    let changed = DEMO_OBSERVED.replace("as their emergency contact", "as a neighbour");
    let (report, code) = analyze(DEMO_BASELINE, &changed, "nuclear", "chosen-caregiver");
    assert_eq!(code, 1);
    assert!(report
        .to_string()
        .contains("behavior case \\\"chosen-caregiver\\\" does not contain the same input on both sides"));
}

#[test]
fn a_classification_outside_the_ontology_is_refused() {
    let changed = DEMO_OBSERVED.replace("\"classification\": \"chosen\"", "\"classification\": \"kin\"");
    let (report, code) = analyze(DEMO_BASELINE, &changed, "nuclear", "chosen-caregiver");
    assert_eq!(code, 1);
    assert!(report.to_string().contains("observed behavior case"));
    assert!(report.to_string().contains("references unknown concept"));
}

#[test]
fn another_ontology_is_incomparable() {
    let other = DEMO_OBSERVED.replace("\"name\": \"family-structure\"", "\"name\": \"risk\"");
    let (report, code) = analyze(DEMO_BASELINE, &other, "nuclear", "chosen-caregiver");
    assert_eq!(code, 1);
    assert_eq!(
        member(member(&report, "error"), "code").to_string(),
        "\"incomparable_envelopes\""
    );
    assert!(report.to_string().contains("ontology mismatch"));
}

#[test]
fn a_changed_route_alone_is_reported_but_stays_stable() {
    let observed = DEMO_BASELINE.replace("\"route\": \"manual-review\"", "\"route\": \"family-support\"");
    let (report, code) = analyze(DEMO_BASELINE, &observed, "nuclear", "chosen-caregiver");
    assert_eq!(code, 0);
    assert_eq!(status(&report), Some("stable".to_string()));
    assert_eq!(behavior_probe_changed(&report), Some(true));
    assert_eq!(semantic_probe_changed(&report), Some(false));
}
