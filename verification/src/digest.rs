//! The seam where probabilistic output meets deterministic infrastructure:
//! every repair is named, genuine ambiguity becomes a question, and unknown
//! keys pass through.

use vstd::prelude::*;

use crate::check::{check, check_spec, CheckOut};
use crate::json::{JsonView, ParseError, Value};
use crate::lenient::{lenient, parse_leniently, Lenient, LenientView};
use crate::schema::Schema;
use crate::text::{
    debug_str, debug_text, dec_chars, join, joined, string_from_chars, texts, usize_to_string,
};

verus! {

// ---------------------------------------------------------------------------
// The ledger of named acts
// ---------------------------------------------------------------------------

/// Every transformation digestion performs is recorded.
#[derive(Debug, Clone, PartialEq, Eq)]
pub enum Repair {
    /// Removed a markdown code fence.
    StrippedFence,
    /// Extracted the JSON payload from surrounding prose.
    StrippedProse,
    /// Rewrote Python literals: True/False/None → true/false/null.
    PythonLiterals,
    /// Rewrote single-quoted strings as double-quoted.
    RequotedStrings,
    /// Quoted bare object keys.
    QuotedKeys,
    /// Removed trailing commas before `}` / `]`.
    RemovedTrailingCommas,
    /// Coerced a value's type at `path`.
    Coerced { path: String, from: String, to: String },
    /// Resolved a hedge (`"~5"`, `"about 5"`) to a number at `path`.
    HedgeResolved { path: String, original: String },
    /// Matched an enum variant case-insensitively at `path`.
    CaseFolded { path: String, original: String },
    /// Dropped an explicit null at `path`, an optional field whose schema
    /// cannot hold null.
    DroppedNullOptional { path: String },
}

/// A repair as plain values.
pub enum RepairView {
    StrippedFence,
    StrippedProse,
    PythonLiterals,
    RequotedStrings,
    QuotedKeys,
    RemovedTrailingCommas,
    Coerced { path: Seq<char>, from: Seq<char>, to: Seq<char> },
    HedgeResolved { path: Seq<char>, original: Seq<char> },
    CaseFolded { path: Seq<char>, original: Seq<char> },
    DroppedNullOptional { path: Seq<char> },
}

impl View for Repair {
    type V = RepairView;

    open spec fn view(&self) -> RepairView {
        match *self {
            Repair::StrippedFence => RepairView::StrippedFence,
            Repair::StrippedProse => RepairView::StrippedProse,
            Repair::PythonLiterals => RepairView::PythonLiterals,
            Repair::RequotedStrings => RepairView::RequotedStrings,
            Repair::QuotedKeys => RepairView::QuotedKeys,
            Repair::RemovedTrailingCommas => RepairView::RemovedTrailingCommas,
            Repair::Coerced { path, from, to } => RepairView::Coerced {
                path: path@,
                from: from@,
                to: to@,
            },
            Repair::HedgeResolved { path, original } => RepairView::HedgeResolved {
                path: path@,
                original: original@,
            },
            Repair::CaseFolded { path, original } => RepairView::CaseFolded {
                path: path@,
                original: original@,
            },
            Repair::DroppedNullOptional { path } => RepairView::DroppedNullOptional { path: path@ },
        }
    }
}

pub open spec fn repair_views(v: Seq<Repair>) -> Seq<RepairView> {
    v.map_values(|r: Repair| r@)
}

/// The stable machine-readable name of a repair.
pub open spec fn repair_code(r: Repair) -> Seq<char> {
    match r {
        Repair::StrippedFence => "stripped_fence"@,
        Repair::StrippedProse => "stripped_prose"@,
        Repair::PythonLiterals => "python_literals"@,
        Repair::RequotedStrings => "requoted_strings"@,
        Repair::QuotedKeys => "quoted_keys"@,
        Repair::RemovedTrailingCommas => "removed_trailing_commas"@,
        Repair::Coerced { .. } => "coerced"@,
        Repair::HedgeResolved { .. } => "hedge_resolved"@,
        Repair::CaseFolded { .. } => "case_folded"@,
        Repair::DroppedNullOptional { .. } => "dropped_null_optional"@,
    }
}

/// The human-readable wording of a repair.
pub open spec fn repair_text(r: Repair) -> Seq<char> {
    match r {
        Repair::StrippedFence => "stripped markdown fence"@,
        Repair::StrippedProse => "extracted JSON from surrounding prose"@,
        Repair::PythonLiterals => "rewrote Python literals (True/False/None)"@,
        Repair::RequotedStrings => "rewrote single-quoted strings"@,
        Repair::QuotedKeys => "quoted bare object keys"@,
        Repair::RemovedTrailingCommas => "removed trailing commas"@,
        Repair::Coerced { path, from, to } => "coerced "@ + path@ + ": "@ + from@ + " → "@ + to@,
        Repair::HedgeResolved { path, original } => "resolved hedge at "@ + path@ + ": "@
            + debug_text(original@),
        Repair::CaseFolded { path, original } => "case-folded "@ + path@ + ": "@ + debug_text(
            original@,
        ),
        Repair::DroppedNullOptional { path } => "dropped null at "@ + path@
            + ": optional field left unset"@,
    }
}

impl Repair {
    /// Stable machine-readable name for this repair, suitable for logs,
    /// policies and metrics.
    pub fn code(&self) -> (r: &'static str)
        ensures
            r@ == repair_code(*self),
    {
        match self {
            Repair::StrippedFence => "stripped_fence",
            Repair::StrippedProse => "stripped_prose",
            Repair::PythonLiterals => "python_literals",
            Repair::RequotedStrings => "requoted_strings",
            Repair::QuotedKeys => "quoted_keys",
            Repair::RemovedTrailingCommas => "removed_trailing_commas",
            Repair::Coerced { .. } => "coerced",
            Repair::HedgeResolved { .. } => "hedge_resolved",
            Repair::CaseFolded { .. } => "case_folded",
            Repair::DroppedNullOptional { .. } => "dropped_null_optional",
        }
    }

    /// The human-readable wording of this repair.
    pub fn to_string(&self) -> (r: String)
        ensures
            r@ == repair_text(*self),
    {
        match self {
            Repair::StrippedFence => String::from_str("stripped markdown fence"),
            Repair::StrippedProse => String::from_str("extracted JSON from surrounding prose"),
            Repair::PythonLiterals => String::from_str("rewrote Python literals (True/False/None)"),
            Repair::RequotedStrings => String::from_str("rewrote single-quoted strings"),
            Repair::QuotedKeys => String::from_str("quoted bare object keys"),
            Repair::RemovedTrailingCommas => String::from_str("removed trailing commas"),
            Repair::Coerced { path, from, to } => {
                let mut r = String::from_str("coerced ");
                r.append(path.as_str());
                r.append(": ");
                r.append(from.as_str());
                r.append(" → ");
                r.append(to.as_str());
                r
            },
            Repair::HedgeResolved { path, original } => {
                let mut r = String::from_str("resolved hedge at ");
                r.append(path.as_str());
                r.append(": ");
                r.append(debug_str(original.as_str()).as_str());
                r
            },
            Repair::CaseFolded { path, original } => {
                let mut r = String::from_str("case-folded ");
                r.append(path.as_str());
                r.append(": ");
                r.append(debug_str(original.as_str()).as_str());
                r
            },
            Repair::DroppedNullOptional { path } => {
                let mut r = String::from_str("dropped null at ");
                r.append(path.as_str());
                r.append(": optional field left unset");
                r
            },
        }
    }
}

/// An ambiguity the system could not, and should not, resolve alone.
#[derive(Debug, Clone, PartialEq, Eq)]
pub struct Question {
    /// JSON path of the ambiguous value, e.g. `$.qty`.
    pub path: String,
    /// A human-answerable prompt.
    pub prompt: String,
    /// Candidate readings, when the polysemy is enumerable.
    pub candidates: Vec<String>,
}

/// A question as plain values.
pub struct QuestionView {
    pub path: Seq<char>,
    pub prompt: Seq<char>,
    pub candidates: Seq<Seq<char>>,
}

impl View for Question {
    type V = QuestionView;

    open spec fn view(&self) -> QuestionView {
        QuestionView { path: self.path@, prompt: self.prompt@, candidates: texts(self.candidates@) }
    }
}

pub open spec fn question_views(v: Seq<Question>) -> Seq<QuestionView> {
    v.map_values(|q: Question| q@)
}

/// `"<path> — <prompt>"`, then the candidates in brackets when there are any.
pub open spec fn question_text(q: Question) -> Seq<char> {
    q.path@ + " — "@ + q.prompt@ + if q.candidates.len() == 0 {
        Seq::empty()
    } else {
        " ["@ + joined(texts(q.candidates@), " | "@) + "]"@
    }
}

impl Question {
    pub fn to_string(&self) -> (r: String)
        ensures
            r@ == question_text(*self),
    {
        let mut r = self.path.clone();
        r.append(" — ");
        r.append(self.prompt.as_str());
        if self.candidates.len() > 0 {
            r.append(" [");
            r.append(join(&self.candidates, " | ").as_str());
            r.append("]");
        } else {
            proof {
                reveal_strlit("");
            }
        }
        r
    }

    /// A copy of this question.
    pub fn duplicate(&self) -> (r: Question)
        ensures
            r.path@ == self.path@,
            r.prompt@ == self.prompt@,
            texts(r.candidates@) == texts(self.candidates@),
    {
        Question {
            path: self.path.clone(),
            prompt: self.prompt.clone(),
            candidates: crate::text::copy_strings(&self.candidates),
        }
    }
}

/// A human or policy-layer answer to one question, keyed by the question's
/// path.
#[derive(Debug, PartialEq)]
pub struct Answer {
    pub path: String,
    pub value: Value,
}

impl Answer {
    pub fn new(path: &str, value: Value) -> (r: Self)
        ensures
            r.path@ == path@,
            r.value == value,
    {
        Answer { path: String::from_str(path), value }
    }
}

/// A refused clarification answer.
#[derive(Debug, Clone, PartialEq, Eq)]
pub enum AnswerError {
    Parse(ParseError),
    NotRequested { path: String },
    Duplicate { path: String },
    InvalidPath { path: String },
}

impl From<ParseError> for AnswerError {
    fn from(e: ParseError) -> (r: AnswerError) {
        AnswerError::Parse(e)
    }
}

impl vstd::std_specs::convert::FromSpecImpl<ParseError> for AnswerError {
    open spec fn obeys_from_spec() -> bool {
        true
    }

    open spec fn from_spec(e: ParseError) -> AnswerError {
        AnswerError::Parse(e)
    }
}

/// The wording of a parse error.
pub open spec fn parse_error_text(e: ParseError) -> Seq<char> {
    "parse error at byte "@ + dec_chars(e.at as nat) + ": "@ + e.msg@
}

impl ParseError {
    pub fn to_string(&self) -> (r: String)
        ensures
            r@ == parse_error_text(*self),
    {
        let mut r = String::from_str("parse error at byte ");
        r.append(usize_to_string(self.at).as_str());
        r.append(": ");
        r.append(self.msg.as_str());
        r
    }
}

/// The wording of a refused answer.
pub open spec fn answer_error_text(e: AnswerError) -> Seq<char> {
    match e {
        AnswerError::Parse(p) => parse_error_text(p),
        AnswerError::NotRequested { path } => "no clarification was requested at "@ + path@,
        AnswerError::Duplicate { path } => "duplicate answer for "@ + path@,
        AnswerError::InvalidPath { path } => "invalid answer path "@ + path@,
    }
}

impl AnswerError {
    pub fn to_string(&self) -> (r: String)
        ensures
            r@ == answer_error_text(*self),
    {
        match self {
            AnswerError::Parse(p) => p.to_string(),
            AnswerError::NotRequested { path } => {
                let mut r = String::from_str("no clarification was requested at ");
                r.append(path.as_str());
                r
            },
            AnswerError::Duplicate { path } => {
                let mut r = String::from_str("duplicate answer for ");
                r.append(path.as_str());
                r
            },
            AnswerError::InvalidPath { path } => {
                let mut r = String::from_str("invalid answer path ");
                r.append(path.as_str());
                r
            },
        }
    }
}

/// A JSON Schema document asked for something outside the supported
/// subset.
#[derive(Debug, Clone, PartialEq, Eq)]
pub struct SchemaError {
    pub path: String,
    pub message: String,
}

impl SchemaError {
    pub fn to_string(&self) -> (r: String)
        ensures
            r@ == "schema error at "@ + self.path@ + ": "@ + self.message@,
    {
        let mut r = String::from_str("schema error at ");
        r.append(self.path.as_str());
        r.append(": ");
        r.append(self.message.as_str());
        r
    }
}

/// The result of digestion: a value you can trust, or the questions to
/// answer first.
#[derive(Debug, PartialEq)]
pub enum Outcome {
    Resolved(Value),
    Clarify(Vec<Question>),
}

pub enum OutcomeView {
    Resolved(JsonView),
    Clarify(Seq<QuestionView>),
}

impl View for Outcome {
    type V = OutcomeView;

    open spec fn view(&self) -> OutcomeView {
        match *self {
            Outcome::Resolved(v) => OutcomeView::Resolved(v@),
            Outcome::Clarify(qs) => OutcomeView::Clarify(question_views(qs@)),
        }
    }
}

pub open spec fn answer_views(v: Seq<Answer>) -> Seq<(Seq<char>, JsonView)> {
    v.map_values(|a: Answer| (a.path@, a.value@))
}

/// A digestion: the outcome, the repairs made, and the answers applied.
#[derive(Debug, PartialEq)]
pub struct Digestion {
    pub outcome: Outcome,
    pub repairs: Vec<Repair>,
    /// Human or policy-layer answers applied; kept apart from repairs, since
    /// an answer is an accountable decision, not a parser transformation.
    pub answers: Vec<Answer>,
}

impl Digestion {
    pub fn is_resolved(&self) -> (r: bool)
        ensures
            r == (self.outcome is Resolved),
    {
        match self.outcome {
            Outcome::Resolved(_) => true,
            Outcome::Clarify(_) => false,
        }
    }
}

/// The outcome of a check: resolved when it raised no question.
pub open spec fn settle(c: CheckOut) -> OutcomeView {
    if c.2.len() == 0 {
        OutcomeView::Resolved(c.0)
    } else {
        OutcomeView::Clarify(c.2)
    }
}

/// A digestion of `value` against `schema`, after the repairs `repairs`.
pub fn check_value(value: &Value, schema: &Schema, repairs: Vec<Repair>, answers: Vec<Answer>) -> (r:
    Digestion)
    ensures
        ({
            let c = check_spec(value@, *schema, "$"@);
            &&& r.outcome@ == settle(c)
            &&& repair_views(r.repairs@) == repair_views(repairs@) + c.1
            &&& r.answers == answers
        }),
{
    let mut repairs = repairs;
    let mut questions: Vec<Question> = Vec::new();
    let root = String::from_str("$");
    let checked = check(value, schema, &root, &mut repairs, &mut questions);
    assert(question_views(questions@) =~= question_views(Seq::<Question>::empty()) + check_spec(
        value@,
        *schema,
        "$"@,
    ).2);
    let outcome = if questions.len() == 0 {
        Outcome::Resolved(checked)
    } else {
        Outcome::Clarify(questions)
    };
    Digestion { outcome, repairs, answers }
}

/// The question raised when the input holds several complete documents:
/// which one was meant, with each as a candidate.
pub open spec fn many_documents_question(docs: Seq<Seq<char>>) -> QuestionView {
    QuestionView {
        path: "$"@,
        prompt: crate::lenient::many_documents_prompt(docs.len()),
        candidates: docs,
    }
}

pub fn multi_document_question(documents: &Vec<Vec<char>>) -> (r: Question)
    ensures
        r@ == many_documents_question(crate::lenient::char_views(documents@)),
{
    let mut prompt = String::from_str("the input contains ");
    prompt.append(usize_to_string(documents.len()).as_str());
    prompt.append(" complete JSON documents — which one did they mean?");
    let mut candidates: Vec<String> = Vec::new();
    let mut i: usize = 0;
    while i < documents.len()
        invariant
            i <= documents@.len(),
            texts(candidates@) == crate::lenient::char_views(documents@).take(i as int),
        decreases documents@.len() - i,
    {
        let ghost before = candidates@;
        candidates.push(string_from_chars(documents[i].as_slice()));
        assert(texts(candidates@) =~= texts(before).push(documents@[i as int]@));
        assert(crate::lenient::char_views(documents@).take(i + 1) =~= crate::lenient::char_views(
            documents@,
        ).take(i as int).push(documents@[i as int]@));
        i = i + 1;
    }
    assert(crate::lenient::char_views(documents@).take(documents@.len() as int)
        =~= crate::lenient::char_views(documents@));
    Question { path: String::from_str("$"), prompt, candidates }
}

/// What digesting `raw` against `schema` gives: the outcome and the
/// repairs, or the parse error when the text is unrecoverable.
pub open spec fn digest_spec(raw: Seq<char>, schema: Schema) -> Result<
    (OutcomeView, Seq<RepairView>),
    (int, Seq<char>),
> {
    let (res, tags) = lenient(raw);
    match res {
        Err(e) => Err(e),
        Ok(LenientView::One(v)) => {
            let c = check_spec(v, schema, "$"@);
            Ok((settle(c), repair_views(tags) + c.1))
        },
        Ok(LenientView::Many(docs)) => Ok(
            (OutcomeView::Clarify(seq![many_documents_question(docs)]), repair_views(tags)),
        ),
    }
}

/// Digests raw model output against a schema: never panics on ambiguity,
/// never silently guesses, and fails only when the text is unrecoverable
/// after every named repair pass.
pub fn digest(raw: &str, schema: &Schema) -> (r: Result<Digestion, ParseError>)
    ensures
        match digest_spec(raw@, *schema) {
            Ok((o, reps)) => r matches Ok(d) && d.outcome@ == o && repair_views(d.repairs@)
                == reps && d.answers@.len() == 0,
            Err((at, msg)) => r matches Err(e) && e.at == at && e.msg@ == msg,
        },
{
    let chars = crate::text::chars_of(raw);
    let mut repairs: Vec<Repair> = Vec::new();
    let parsed = parse_leniently(chars.as_slice(), &mut repairs);
    assert(repairs@ =~= lenient(raw@).1);
    match parsed {
        Err(e) => Err(e),
        Ok(Lenient::One(value)) => Ok(check_value(&value, schema, repairs, Vec::new())),
        Ok(Lenient::Many(documents)) => {
            let q = multi_document_question(&documents);
            let mut questions: Vec<Question> = Vec::new();
            questions.push(q);
            assert(question_views(questions@) =~= seq![
                many_documents_question(crate::lenient::char_views(documents@)),
            ]);
            Ok(
                Digestion {
                    outcome: Outcome::Clarify(questions),
                    repairs,
                    answers: Vec::new(),
                },
            )
        },
    }
}

/// Repair, don't throw — and never silently: a digestion that resolves with
/// an empty repair ledger hands back exactly the strict parse of the text.
pub proof fn law_silent_digestion_is_the_strict_parse(raw: Seq<char>, schema: Schema)
    requires
        digest_spec(raw, schema) matches Ok((OutcomeView::Resolved(_), reps)) && reps.len() == 0,
    ensures
        crate::json::p_document(raw) matches Ok(v) && digest_spec(raw, schema) == Ok::<
            (OutcomeView, Seq<RepairView>),
            (int, Seq<char>),
        >((OutcomeView::Resolved(v), Seq::empty())),
{
    let (res, tags) = lenient(raw);
    if let Ok(LenientView::One(w)) = res {
        let c = check_spec(w, schema, "$"@);
        assert((repair_views(tags) + c.1).len() == tags.len() + c.1.len());
        crate::lenient::law_unrepaired_parse_is_strict(raw);
        reveal(crate::lenient::strict);
        crate::json::lemma_document_well_keyed(raw);
        crate::check::law_quiet_check_keeps_the_value(w, schema, "$"@);
        assert(repair_views(tags) + c.1 =~= Seq::<RepairView>::empty());
    }
}

/// Ambiguity becomes a question, not a coin flip: digestion withholds a
/// value only by asking at least one question.
pub proof fn law_clarification_always_asks(raw: Seq<char>, schema: Schema)
    ensures
        digest_spec(raw, schema) matches Ok((OutcomeView::Clarify(qs), _)) ==> qs.len() > 0,
{
}

/// There is no state where you receive a value you cannot trust: a
/// digestion that resolves hands over a value that conforms to the schema.
pub proof fn law_resolved_value_conforms(raw: Seq<char>, schema: Schema)
    ensures
        digest_spec(raw, schema) matches Ok((OutcomeView::Resolved(v), _)) ==> crate::check::conforms(
            v,
            schema,
        ),
{
    crate::lenient::lemma_lenient_well_keyed(raw);
    if let Ok(LenientView::One(w)) = lenient(raw).0 {
        if check_spec(w, schema, "$"@).2.len() == 0 {
            crate::check::law_unquestioned_check_conforms(w, schema, "$"@);
        }
    }
}

} // verus!
