use polysemic::ontology::{EnactError, Legislature, OntologySnapshot, Source};

#[test]
fn ontology_diff_names_added_removed_and_redefined_concepts() {
    let grown = OntologySnapshot::new(
        "family",
        "model-v1",
        &[
            ("nuclear", "parents and dependent children"),
            ("extended", "relatives beyond the household"),
            ("legacy", "a retired historical bucket"),
        ],
    );
    let observed = OntologySnapshot::new(
        "family",
        "users-2026-07",
        &[
            ("nuclear", "a household's primary care network"),
            ("extended", "relatives beyond the household"),
            ("chosen", "people intentionally recognized as family"),
        ],
    );

    let drift = grown.compare(&observed);
    assert_eq!(drift.added, vec!["chosen"]);
    assert_eq!(drift.removed, vec!["legacy"]);
    assert_eq!(drift.redefined, vec!["nuclear"]);
    assert!(!drift.is_empty());
    assert!(drift.to_string().contains("added [chosen]"));
}

#[test]
fn ontology_diff_ignores_case_and_whitespace_only_changes() {
    let grown = OntologySnapshot::new("units", "v1", &[("metric", "SI  units")]);
    let observed = OntologySnapshot::new("units", "v2", &[("metric", "si units")]);

    assert!(grown.compare(&observed).is_empty());
}

#[test]
fn legislature_overrules_grown_and_names_its_source() {
    let mut law = Legislature::new();
    let before = law.resolve("units", "imperial");
    assert_eq!(before.source, Source::Grown);

    law.enact("units", "metric", "product ships in the EU")
        .expect("a reasoned rule enacts");
    let after = law.resolve("units", "imperial");
    assert_eq!(after.value, "metric");
    assert!(matches!(after.source, Source::Legislated { .. }));

    assert_eq!(
        law.enact("units", "imperial", "  "),
        Err(EnactError::EmptyReason)
    );
    assert_eq!(
        law.enact("", "metric", "why"),
        Err(EnactError::EmptyCategory)
    );
    assert_eq!(law.resolve("units", "imperial").value, "metric");

    assert!(law.repeal("units"));
    assert_eq!(law.resolve("units", "imperial").value, "imperial");
}

use polysemic::number::Number;
use polysemic::ontology::BehaviorReading;
use polysemic::provenance::{ComparisonError, Labor, ProvenanceEnvelope, ProvenanceLabel};

fn label(corpus: &str) -> ProvenanceLabel {
    ProvenanceLabel {
        corpus: corpus.into(),
        source_uri: format!("urn:test:{corpus}"),
        corpus_sha256: "a".repeat(64),
        tokens: 1_000,
        vintage: "2026-07".into(),
        languages: vec![("en".into(), Number::from_int(1))],
        annotator_labor: Labor::Credited,
        notes: Vec::new(),
    }
}

fn envelope(
    artifact_id: &str,
    artifact_version: &str,
    ontology: &str,
    definition: &str,
) -> ProvenanceEnvelope {
    ProvenanceEnvelope::new(
        artifact_id,
        artifact_version,
        &format!("urn:test:artifact:{artifact_version}"),
        &"1".repeat(64),
        label("support-archive"),
        OntologySnapshot::new(ontology, artifact_version, &[("nuclear", definition)]),
    )
}

#[test]
fn provenance_envelopes_compare_only_like_artifacts() {
    let baseline = envelope(
        "family-router",
        "model-v1",
        "family",
        "parents and children",
    );
    let observed = envelope(
        "family-router",
        "candidate-v2",
        "family",
        "a household's primary care network",
    );

    let comparison = baseline.compare(&observed, "nuclear").unwrap();
    assert!(comparison.drift_detected());
    assert!(comparison.probe.changed());
    assert_eq!(comparison.baseline.artifact_id, "family-router");
    assert_eq!(comparison.baseline.provenance.corpus, "support-archive");
    assert_eq!(comparison.observed.provenance.corpus, "support-archive");

    let unrelated = envelope("risk-router", "v2", "family", "parents and children");
    assert!(matches!(
        baseline.compare(&unrelated, "nuclear"),
        Err(ComparisonError::ArtifactMismatch { .. })
    ));
}

#[test]
fn concept_probe_exposes_added_meaning() {
    let baseline = ProvenanceEnvelope::new(
        "family-router",
        "model-v1",
        "urn:test:artifact:model-v1",
        &"1".repeat(64),
        label("archive-2018"),
        OntologySnapshot::new("family", "v1", &[("nuclear", "parents and children")]),
    );
    let observed = ProvenanceEnvelope::new(
        "family-router",
        "candidate-v2",
        "urn:test:artifact:candidate-v2",
        &"2".repeat(64),
        label("support-2026"),
        OntologySnapshot::new(
            "family",
            "v2",
            &[
                ("nuclear", "parents and children"),
                ("chosen", "people intentionally recognized as family"),
            ],
        ),
    );

    let probe = baseline.compare(&observed, "chosen").unwrap().probe;
    assert!(probe.baseline_definition.is_none());
    assert!(probe.observed_definition.is_some());
    assert!(probe.changed());
}

#[test]
fn unknown_concept_cannot_masquerade_as_a_stable_probe() {
    let baseline = envelope(
        "family-router",
        "model-v1",
        "family",
        "parents and children",
    );
    let observed = envelope(
        "family-router",
        "candidate-v2",
        "family",
        "a household's primary care network",
    );

    assert_eq!(
        baseline.compare(&observed, "nucelar"),
        Err(ComparisonError::UnknownProbe {
            concept: "nucelar".into(),
        })
    );
}

#[test]
fn behavior_probe_compares_the_same_case_and_exposes_a_route_change() {
    let baseline = envelope(
        "family-router",
        "model-v1",
        "family",
        "parents and children",
    )
    .with_behavior_cases(vec![(
        "chosen-caregiver".into(),
        BehaviorReading {
            input: "Alex names a chosen-family caregiver".into(),
            classification: "nuclear".into(),
            route: "manual-review".into(),
        },
    )])
    .with_behavior_source("urn:test:cases", &"3".repeat(64));
    let observed = envelope(
        "family-router",
        "candidate-v2",
        "family",
        "a household's primary care network",
    )
    .with_behavior_cases(vec![(
        "chosen-caregiver".into(),
        BehaviorReading {
            input: "Alex names a chosen-family caregiver".into(),
            classification: "nuclear".into(),
            route: "family-support".into(),
        },
    )])
    .with_behavior_source("urn:test:cases", &"3".repeat(64));

    let probe = baseline
        .probe_behavior(&observed, "chosen-caregiver")
        .unwrap();
    assert!(probe.changed());
    assert_eq!(probe.baseline.route, "manual-review");
    assert_eq!(probe.observed.route, "family-support");
}
