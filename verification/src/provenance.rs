//! Provenance: the corpus behind an ontology, and envelopes that carry an
//! ontology snapshot together with the histories that produced it.

use vstd::prelude::*;

use crate::number::{NumView, Number};
use crate::erasure::str_eq;
use crate::ontology::{
    is_drift, same_snapshot, BehaviorProbe, BehaviorReading, ConceptProbe, OntologyDrift,
    OntologySnapshot,
};
use crate::text::{copy_strings, debug_str, debug_text, texts};
use crate::textmap::{lookup, sorted_insert, TextMap};

verus! {

/// Whether annotator labor is on the record.
#[derive(Debug, Clone, Copy, PartialEq, Eq, Structural)]
pub enum Labor {
    /// Annotator labor acknowledged and traceable.
    Credited,
    /// Present in the pipeline, absent from the record.
    Uncredited,
}

impl Labor {
    pub fn to_string(&self) -> (r: String)
        ensures
            r@ == match *self {
                Labor::Credited => "present, credited"@,
                Labor::Uncredited => "present, uncredited"@,
            },
    {
        match self {
            Labor::Credited => String::from_str("present, credited"),
            Labor::Uncredited => String::from_str("present, uncredited"),
        }
    }
}

/// A comparison was requested between envelopes that do not describe the
/// same artifact, ontology or case.
#[derive(Debug, Clone, PartialEq, Eq)]
pub enum ComparisonError {
    ArtifactMismatch { baseline: String, observed: String },
    OntologyMismatch { baseline: String, observed: String },
    UnknownProbe { concept: String },
    UnknownBehaviorCase { case_id: String },
    BehaviorCorpusMismatch { baseline: String, observed: String },
    BehaviorInputMismatch { case_id: String },
    InvalidBehaviorClassification { side: &'static str, case_id: String, classification: String },
}

pub open spec fn comparison_error_text(e: ComparisonError) -> Seq<char> {
    match e {
        ComparisonError::ArtifactMismatch { baseline, observed } => "artifact mismatch: baseline "@
            + debug_text(baseline@) + ", observed "@ + debug_text(observed@),
        ComparisonError::OntologyMismatch { baseline, observed } => "ontology mismatch: baseline "@
            + debug_text(baseline@) + ", observed "@ + debug_text(observed@),
        ComparisonError::UnknownProbe { concept } => "probe concept "@ + debug_text(concept@)
            + " is absent from both snapshots"@,
        ComparisonError::UnknownBehaviorCase { case_id } => "behavior case "@ + debug_text(
            case_id@,
        ) + " is not recorded in both snapshots"@,
        ComparisonError::BehaviorCorpusMismatch { baseline, observed } =>
            "behavior corpus mismatch: baseline "@ + debug_text(baseline@) + ", observed "@
                + debug_text(observed@),
        ComparisonError::BehaviorInputMismatch { case_id } => "behavior case "@ + debug_text(
            case_id@,
        ) + " does not contain the same input on both sides"@,
        ComparisonError::InvalidBehaviorClassification { side, case_id, classification } => side@
            + " behavior case "@ + debug_text(case_id@) + " references unknown concept "@
            + debug_text(classification@),
    }
}

fn pair_text(label: &str, baseline: &String, observed: &String) -> (r: String)
    ensures
        r@ == label@ + debug_text(baseline@) + ", observed "@ + debug_text(observed@),
{
    let mut r = String::from_str(label);
    r.append(debug_str(baseline.as_str()).as_str());
    r.append(", observed ");
    r.append(debug_str(observed.as_str()).as_str());
    r
}

fn quoted_text(label: &str, x: &String, tail: &str) -> (r: String)
    ensures
        r@ == label@ + debug_text(x@) + tail@,
{
    let mut r = String::from_str(label);
    r.append(debug_str(x.as_str()).as_str());
    r.append(tail);
    r
}

impl ComparisonError {
    pub fn to_string(&self) -> (r: String)
        ensures
            r@ == comparison_error_text(*self),
    {
        match self {
            ComparisonError::ArtifactMismatch { baseline, observed } => pair_text(
                "artifact mismatch: baseline ",
                baseline,
                observed,
            ),
            ComparisonError::OntologyMismatch { baseline, observed } => pair_text(
                "ontology mismatch: baseline ",
                baseline,
                observed,
            ),
            ComparisonError::UnknownProbe { concept } => quoted_text(
                "probe concept ",
                concept,
                " is absent from both snapshots",
            ),
            ComparisonError::UnknownBehaviorCase { case_id } => quoted_text(
                "behavior case ",
                case_id,
                " is not recorded in both snapshots",
            ),
            ComparisonError::BehaviorCorpusMismatch { baseline, observed } => pair_text(
                "behavior corpus mismatch: baseline ",
                baseline,
                observed,
            ),
            ComparisonError::BehaviorInputMismatch { case_id } => quoted_text(
                "behavior case ",
                case_id,
                " does not contain the same input on both sides",
            ),
            ComparisonError::InvalidBehaviorClassification { side, case_id, classification } => {
                let mut r = String::from_str(side);
                r.append(" behavior case ");
                r.append(debug_str(case_id.as_str()).as_str());
                r.append(" references unknown concept ");
                r.append(debug_str(classification.as_str()).as_str());
                r
            },
        }
    }
}

// ---------------------------------------------------------------------------
// Provenance labels and envelopes
// ---------------------------------------------------------------------------

/// A nutrition label for a corpus.
#[derive(Debug, PartialEq)]
pub struct ProvenanceLabel {
    pub corpus: String,
    /// Stable location or registry identifier for the corpus manifest.
    pub source_uri: String,
    /// SHA-256 commitment to that manifest or corpus export.
    pub corpus_sha256: String,
    pub tokens: u64,
    pub vintage: String,
    /// Language shares, e.g. `[("en", 0.87), ("other", 0.13)]`.
    pub languages: Vec<(String, Number)>,
    pub annotator_labor: Labor,
    pub notes: Vec<String>,
}

pub open spec fn share_views(v: Seq<(String, Number)>) -> Seq<(Seq<char>, NumView)> {
    v.map_values(|p: (String, Number)| (p.0@, p.1@))
}

/// Two labels that say the same thing.
pub open spec fn same_label(a: ProvenanceLabel, b: ProvenanceLabel) -> bool {
    &&& a.corpus@ == b.corpus@
    &&& a.source_uri@ == b.source_uri@
    &&& a.corpus_sha256@ == b.corpus_sha256@
    &&& a.tokens == b.tokens
    &&& a.vintage@ == b.vintage@
    &&& share_views(a.languages@) == share_views(b.languages@)
    &&& a.annotator_labor == b.annotator_labor
    &&& texts(a.notes@) == texts(b.notes@)
}

impl ProvenanceLabel {
    /// A copy of this label.
    pub fn duplicate(&self) -> (r: Self)
        ensures
            same_label(r, *self),
    {
        let mut languages: Vec<(String, Number)> = Vec::new();
        let mut i: usize = 0;
        while i < self.languages.len()
            invariant
                i <= self.languages@.len(),
                share_views(languages@) == share_views(self.languages@).take(i as int),
            decreases self.languages@.len() - i,
        {
            let ghost before = languages@;
            let l = self.languages[i].0.clone();
            let s = self.languages[i].1.duplicate();
            languages.push((l, s));
            assert(share_views(languages@) =~= share_views(before).push(
                (self.languages@[i as int].0@, self.languages@[i as int].1@),
            ));
            assert(share_views(self.languages@).take(i + 1) =~= share_views(self.languages@).take(
                i as int,
            ).push((self.languages@[i as int].0@, self.languages@[i as int].1@)));
            i = i + 1;
        }
        assert(share_views(self.languages@).take(self.languages@.len() as int) =~= share_views(
            self.languages@,
        ));
        ProvenanceLabel {
            corpus: self.corpus.clone(),
            source_uri: self.source_uri.clone(),
            corpus_sha256: self.corpus_sha256.clone(),
            tokens: self.tokens,
            vintage: self.vintage.clone(),
            languages,
            annotator_labor: self.annotator_labor,
            notes: copy_strings(&self.notes),
        }
    }
}

/// An ontology snapshot that cannot travel without its corpus provenance.
#[derive(Debug, PartialEq)]
pub struct ProvenanceEnvelope {
    pub artifact_id: String,
    pub artifact_version: String,
    /// Stable location or registry identifier for the artifact bytes.
    pub artifact_uri: String,
    /// SHA-256 commitment to the exact artifact revision under review.
    pub artifact_sha256: String,
    pub provenance: ProvenanceLabel,
    pub ontology: OntologySnapshot,
    /// Stable location of the behavior-case corpus replayed by a runner.
    pub behavior_uri: String,
    /// SHA-256 commitment to the exact behavior-case corpus.
    pub behavior_sha256: String,
    /// Runner observations materialized from the committed artifact and cases.
    pub behavior_cases: TextMap<BehaviorReading>,
}

/// Two envelopes that say the same thing.
pub open spec fn same_envelope(a: ProvenanceEnvelope, b: ProvenanceEnvelope) -> bool {
    &&& a.artifact_id@ == b.artifact_id@
    &&& a.artifact_version@ == b.artifact_version@
    &&& a.artifact_uri@ == b.artifact_uri@
    &&& a.artifact_sha256@ == b.artifact_sha256@
    &&& same_label(a.provenance, b.provenance)
    &&& same_snapshot(a.ontology, b.ontology)
    &&& a.behavior_uri@ == b.behavior_uri@
    &&& a.behavior_sha256@ == b.behavior_sha256@
    &&& a.behavior_cases.entries() == b.behavior_cases.entries()
}

/// Cases stored one after another: a later case for the same id replaces an
/// earlier one.
pub open spec fn cases_from(pairs: Seq<(Seq<char>, BehaviorReading)>) -> Seq<(Seq<char>, BehaviorReading)>
    decreases pairs.len(),
{
    if pairs.len() == 0 {
        Seq::empty()
    } else {
        sorted_insert(cases_from(pairs.drop_last()), pairs.last().0, pairs.last().1)
    }
}

pub open spec fn case_views(v: Seq<(String, BehaviorReading)>) -> Seq<(Seq<char>, BehaviorReading)> {
    v.map_values(|p: (String, BehaviorReading)| (p.0@, p.1))
}

fn duplicate_cases(m: &TextMap<BehaviorReading>) -> (r: TextMap<BehaviorReading>)
    ensures
        r.entries() == m.entries(),
{
    let mut out: TextMap<BehaviorReading> = TextMap::new();
    let mut i: usize = 0;
    proof {
        use_type_invariant(m);
        assert(m.entries().take(0) =~= Seq::<(Seq<char>, BehaviorReading)>::empty());
    }
    while i < m.len()
        invariant
            i <= m.entries().len(),
            crate::textmap::keys_increasing(m.entries()),
            out.entries() == m.entries().take(i as int),
        decreases m.entries().len() - i,
    {
        let (k, v) = m.entry(i);
        let ghost before = out.entries();
        proof {
            crate::textmap::lemma_append_sorted(before, k@, *v, m.entries(), i as int);
        }
        out.insert(k.clone(), v.duplicate());
        assert(m.entries().take(i + 1) =~= before.push((k@, *v)));
        i = i + 1;
    }
    assert(m.entries().take(m.entries().len() as int) =~= m.entries());
    out
}

impl ProvenanceEnvelope {
    pub fn new(
        artifact_id: &str,
        artifact_version: &str,
        artifact_uri: &str,
        artifact_sha256: &str,
        provenance: ProvenanceLabel,
        ontology: OntologySnapshot,
    ) -> (r: Self)
        ensures
            r.artifact_id@ == artifact_id@,
            r.artifact_version@ == artifact_version@,
            r.artifact_uri@ == artifact_uri@,
            r.artifact_sha256@ == artifact_sha256@,
            r.provenance == provenance,
            r.ontology == ontology,
            r.behavior_uri@ == Seq::<char>::empty(),
            r.behavior_sha256@ == Seq::<char>::empty(),
            r.behavior_cases.entries().len() == 0,
    {
        ProvenanceEnvelope {
            artifact_id: String::from_str(artifact_id),
            artifact_version: String::from_str(artifact_version),
            artifact_uri: String::from_str(artifact_uri),
            artifact_sha256: String::from_str(artifact_sha256),
            provenance,
            ontology,
            behavior_uri: String::new(),
            behavior_sha256: String::new(),
            behavior_cases: TextMap::new(),
        }
    }

    /// This envelope with the location and commitment of its behavior cases.
    pub fn with_behavior_source(self, source_uri: &str, sha256: &str) -> (r: Self)
        ensures
            r.behavior_uri@ == source_uri@,
            r.behavior_sha256@ == sha256@,
            r.artifact_id == self.artifact_id,
            r.artifact_version == self.artifact_version,
            r.artifact_uri == self.artifact_uri,
            r.artifact_sha256 == self.artifact_sha256,
            r.provenance == self.provenance,
            r.ontology == self.ontology,
            r.behavior_cases == self.behavior_cases,
    {
        let mut r = self;
        r.behavior_uri = String::from_str(source_uri);
        r.behavior_sha256 = String::from_str(sha256);
        r
    }

    /// This envelope with the given behavior cases in place of its own; a
    /// later case for the same id replaces an earlier one.
    pub fn with_behavior_cases(self, cases: Vec<(String, BehaviorReading)>) -> (r: Self)
        ensures
            r.behavior_cases.entries() == cases_from(case_views(cases@)),
            r.artifact_id == self.artifact_id,
            r.artifact_version == self.artifact_version,
            r.artifact_uri == self.artifact_uri,
            r.artifact_sha256 == self.artifact_sha256,
            r.provenance == self.provenance,
            r.ontology == self.ontology,
            r.behavior_uri == self.behavior_uri,
            r.behavior_sha256 == self.behavior_sha256,
    {
        let ghost cv = case_views(cases@);
        let mut m: TextMap<BehaviorReading> = TextMap::new();
        let mut i: usize = 0;
        assert(cv.take(0) =~= Seq::<(Seq<char>, BehaviorReading)>::empty());
        while i < cases.len()
            invariant
                i <= cases@.len(),
                cv == case_views(cases@),
                m.entries() == cases_from(cv.take(i as int)),
            decreases cases@.len() - i,
        {
            proof {
                let t = cv.take(i + 1);
                assert(t.drop_last() =~= cv.take(i as int));
                assert(t.last() == (cases@[i as int].0@, cases@[i as int].1));
            }
            m.insert(cases[i].0.clone(), cases[i].1.duplicate());
            i = i + 1;
        }
        assert(cv.take(cases@.len() as int) =~= cv);
        let mut r = self;
        r.behavior_cases = m;
        r
    }

    /// A copy of this envelope.
    pub fn duplicate(&self) -> (r: Self)
        ensures
            same_envelope(r, *self),
    {
        ProvenanceEnvelope {
            artifact_id: self.artifact_id.clone(),
            artifact_version: self.artifact_version.clone(),
            artifact_uri: self.artifact_uri.clone(),
            artifact_sha256: self.artifact_sha256.clone(),
            provenance: self.provenance.duplicate(),
            ontology: self.ontology.duplicate(),
            behavior_uri: self.behavior_uri.clone(),
            behavior_sha256: self.behavior_sha256.clone(),
            behavior_cases: duplicate_cases(&self.behavior_cases),
        }
    }
}

/// A drift result with both source envelopes attached.
#[derive(Debug, PartialEq)]
pub struct EnvelopeComparison {
    pub baseline: ProvenanceEnvelope,
    pub observed: ProvenanceEnvelope,
    pub ontology_drift: OntologyDrift,
    pub probe: ConceptProbe,
}

impl EnvelopeComparison {
    pub fn drift_detected(&self) -> (r: bool)
        ensures
            r == !(self.ontology_drift.added@.len() == 0 && self.ontology_drift.removed@.len() == 0
                && self.ontology_drift.redefined@.len() == 0),
    {
        !self.ontology_drift.is_empty()
    }
}

pub open spec fn opt_text(o: Option<String>) -> Option<Seq<char>> {
    match o {
        Some(s) => Some(s@),
        None => None,
    }
}

fn definition_of(concepts: &TextMap<String>, concept: &str) -> (r: Option<String>)
    ensures
        opt_text(r) == opt_text(lookup(concepts.entries(), concept@)),
{
    match concepts.get(concept) {
        Some(d) => Some(d.clone()),
        None => None,
    }
}

impl ProvenanceEnvelope {
    /// Compares two revisions of the same artifact and probes one concept's
    /// meaning on both sides. Different artifacts or ontologies, or a concept
    /// absent from both, are refused.
    pub fn compare(&self, observed: &ProvenanceEnvelope, concept: &str) -> (r: Result<
        EnvelopeComparison,
        ComparisonError,
    >)
        ensures
            self.artifact_id@ != observed.artifact_id@ ==> (r matches Err(
                ComparisonError::ArtifactMismatch { baseline, observed: o },
            ) && baseline@ == self.artifact_id@ && o@ == observed.artifact_id@),
            self.artifact_id@ == observed.artifact_id@ && self.ontology.name@
                != observed.ontology.name@ ==> (r matches Err(
                ComparisonError::OntologyMismatch { baseline, observed: o },
            ) && baseline@ == self.ontology.name@ && o@ == observed.ontology.name@),
            self.artifact_id@ == observed.artifact_id@ && self.ontology.name@
                == observed.ontology.name@ && lookup(self.ontology.concepts.entries(), concept@)
                is None && lookup(observed.ontology.concepts.entries(), concept@) is None ==> (r matches Err(
                ComparisonError::UnknownProbe { concept: c },
            ) && c@ == concept@),
            r is Ok <==> (self.artifact_id@ == observed.artifact_id@ && self.ontology.name@
                == observed.ontology.name@ && (lookup(self.ontology.concepts.entries(), concept@)
                is Some || lookup(observed.ontology.concepts.entries(), concept@) is Some)),
            r matches Ok(c) ==> (same_envelope(c.baseline, *self) && same_envelope(
                c.observed,
                *observed,
            ) && is_drift(c.ontology_drift, self.ontology, observed.ontology) && c.probe.concept@
                == concept@ && opt_text(c.probe.baseline_definition) == opt_text(
                lookup(self.ontology.concepts.entries(), concept@),
            ) && opt_text(c.probe.observed_definition) == opt_text(
                lookup(observed.ontology.concepts.entries(), concept@),
            )),
    {
        if !str_eq(self.artifact_id.as_str(), observed.artifact_id.as_str()) {
            return Err(
                ComparisonError::ArtifactMismatch {
                    baseline: self.artifact_id.clone(),
                    observed: observed.artifact_id.clone(),
                },
            );
        }
        if !str_eq(self.ontology.name.as_str(), observed.ontology.name.as_str()) {
            return Err(
                ComparisonError::OntologyMismatch {
                    baseline: self.ontology.name.clone(),
                    observed: observed.ontology.name.clone(),
                },
            );
        }
        let baseline_definition = definition_of(&self.ontology.concepts, concept);
        let observed_definition = definition_of(&observed.ontology.concepts, concept);
        if baseline_definition.is_none() && observed_definition.is_none() {
            return Err(ComparisonError::UnknownProbe { concept: String::from_str(concept) });
        }
        Ok(
            EnvelopeComparison {
                baseline: self.duplicate(),
                observed: observed.duplicate(),
                ontology_drift: self.ontology.compare(&observed.ontology),
                probe: ConceptProbe {
                    concept: String::from_str(concept),
                    baseline_definition,
                    observed_definition,
                },
            },
        )
    }

    /// Compares the runner's readings of one committed case across two
    /// snapshots: same behavior corpus, the case on both sides with the same
    /// input, and each classification a concept of its own ontology.
    pub fn probe_behavior(&self, observed: &ProvenanceEnvelope, case_id: &str) -> (r: Result<
        BehaviorProbe,
        ComparisonError,
    >)
        ensures
            self.behavior_sha256@ != observed.behavior_sha256@ ==> (r matches Err(
                ComparisonError::BehaviorCorpusMismatch { baseline, observed: o },
            ) && baseline@ == self.behavior_sha256@ && o@ == observed.behavior_sha256@),
            self.behavior_sha256@ == observed.behavior_sha256@ && (lookup(
                self.behavior_cases.entries(),
                case_id@,
            ) is None || lookup(observed.behavior_cases.entries(), case_id@) is None) ==> (r matches Err(
                ComparisonError::UnknownBehaviorCase { case_id: c },
            ) && c@ == case_id@),
            lookup(self.behavior_cases.entries(), case_id@) matches Some(b) ==> (
            self.behavior_sha256@ == observed.behavior_sha256@ ==> (lookup(
                observed.behavior_cases.entries(),
                case_id@,
            ) matches Some(o) ==> (if b.input@ != o.input@ {
                r matches Err(ComparisonError::BehaviorInputMismatch { case_id: c })
                    && c@ == case_id@
            } else if lookup(self.ontology.concepts.entries(), b.classification@) is None {
                r matches Err(
                    ComparisonError::InvalidBehaviorClassification { side, case_id: c, classification },
                ) && side@ == "baseline"@ && c@ == case_id@ && classification@ == b.classification@
            } else if lookup(observed.ontology.concepts.entries(), o.classification@) is None {
                r matches Err(
                    ComparisonError::InvalidBehaviorClassification { side, case_id: c, classification },
                ) && side@ == "observed"@ && c@ == case_id@ && classification@ == o.classification@
            } else {
                r matches Ok(p) && p.case_id@ == case_id@ && p.input@ == b.input@ && p.baseline == b
                    && p.observed == o
            }))),
    {
        if !str_eq(self.behavior_sha256.as_str(), observed.behavior_sha256.as_str()) {
            return Err(
                ComparisonError::BehaviorCorpusMismatch {
                    baseline: self.behavior_sha256.clone(),
                    observed: observed.behavior_sha256.clone(),
                },
            );
        }
        let baseline = match self.behavior_cases.get(case_id) {
            Some(b) => b,
            None => {
                return Err(ComparisonError::UnknownBehaviorCase { case_id: String::from_str(case_id) });
            },
        };
        let observed_reading = match observed.behavior_cases.get(case_id) {
            Some(o) => o,
            None => {
                return Err(ComparisonError::UnknownBehaviorCase { case_id: String::from_str(case_id) });
            },
        };
        if !str_eq(baseline.input.as_str(), observed_reading.input.as_str()) {
            return Err(
                ComparisonError::BehaviorInputMismatch { case_id: String::from_str(case_id) },
            );
        }
        if !self.ontology.concepts.contains_key(baseline.classification.as_str()) {
            return Err(
                ComparisonError::InvalidBehaviorClassification {
                    side: "baseline",
                    case_id: String::from_str(case_id),
                    classification: baseline.classification.clone(),
                },
            );
        }
        if !observed.ontology.concepts.contains_key(observed_reading.classification.as_str()) {
            return Err(
                ComparisonError::InvalidBehaviorClassification {
                    side: "observed",
                    case_id: String::from_str(case_id),
                    classification: observed_reading.classification.clone(),
                },
            );
        }
        Ok(
            BehaviorProbe {
                case_id: String::from_str(case_id),
                input: baseline.input.clone(),
                baseline: baseline.duplicate(),
                observed: observed_reading.duplicate(),
            },
        )
    }
}

} // verus!
