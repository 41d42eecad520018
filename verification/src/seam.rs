//! The machine-usable seam: a schema and unreliable model text in, one JSON
//! envelope and an exit status out — resolved, clarify, or rejected.

use vstd::prelude::*;

use crate::answers::{answered_spec, digest_with_answers, AnswerErrorView};
use crate::digest::{
    answer_views, digest, digest_spec, question_views, repair_views, Answer,
    AnswerError, Digestion, Outcome, OutcomeView, Question, QuestionView, Repair, RepairView,
};
use crate::json::{item_views, p_document, parse, JsonView, ParseError, Value};
use crate::number::{find_char, find_char_exec};
use crate::report::{
    no_members, put, rejection, rejection_json, string_array, strings_json, text_value, with,
};
use crate::schema::{from_json_schema_spec, schema_view, Schema};
use crate::text::{dec_chars, debug_text, string_from_chars, usize_to_string};
use crate::textmap::TextMap;

verus! {

broadcast use crate::json::group_json_view;

// ---------------------------------------------------------------------------
// The parts of an envelope
// ---------------------------------------------------------------------------

/// The stable code of a repair.
pub open spec fn repair_view_code(r: RepairView) -> Seq<char> {
    match r {
        RepairView::StrippedFence => "stripped_fence"@,
        RepairView::StrippedProse => "stripped_prose"@,
        RepairView::PythonLiterals => "python_literals"@,
        RepairView::RequotedStrings => "requoted_strings"@,
        RepairView::QuotedKeys => "quoted_keys"@,
        RepairView::RemovedTrailingCommas => "removed_trailing_commas"@,
        RepairView::Coerced { .. } => "coerced"@,
        RepairView::HedgeResolved { .. } => "hedge_resolved"@,
        RepairView::CaseFolded { .. } => "case_folded"@,
        RepairView::DroppedNullOptional { .. } => "dropped_null_optional"@,
    }
}

/// The wording of a repair.
pub open spec fn repair_view_text(r: RepairView) -> Seq<char> {
    match r {
        RepairView::StrippedFence => "stripped markdown fence"@,
        RepairView::StrippedProse => "extracted JSON from surrounding prose"@,
        RepairView::PythonLiterals => "rewrote Python literals (True/False/None)"@,
        RepairView::RequotedStrings => "rewrote single-quoted strings"@,
        RepairView::QuotedKeys => "quoted bare object keys"@,
        RepairView::RemovedTrailingCommas => "removed trailing commas"@,
        RepairView::Coerced { path, from, to } => "coerced "@ + path + ": "@ + from + " → "@ + to,
        RepairView::HedgeResolved { path, original } => "resolved hedge at "@ + path + ": "@
            + debug_text(original),
        RepairView::CaseFolded { path, original } => "case-folded "@ + path + ": "@ + debug_text(
            original,
        ),
        RepairView::DroppedNullOptional { path } => "dropped null at "@ + path
            + ": optional field left unset"@,
    }
}

/// A repair as JSON: its code and wording, and where it has them the path
/// and what it read.
pub open spec fn repair_json(r: RepairView) -> JsonView {
    let base = with(
        with(no_members(), "code"@, JsonView::Str(repair_view_code(r))),
        "message"@,
        JsonView::Str(repair_view_text(r)),
    );
    JsonView::Obj(
        match r {
            RepairView::Coerced { path, from, to } => with(
                with(with(base, "path"@, JsonView::Str(path)), "from"@, JsonView::Str(from)),
                "to"@,
                JsonView::Str(to),
            ),
            RepairView::HedgeResolved { path, original } => with(
                with(base, "path"@, JsonView::Str(path)),
                "original"@,
                JsonView::Str(original),
            ),
            RepairView::CaseFolded { path, original } => with(
                with(base, "path"@, JsonView::Str(path)),
                "original"@,
                JsonView::Str(original),
            ),
            _ => base,
        },
    )
}

/// A repair as JSON.
pub fn repair_value(repair: &Repair) -> (r: Value)
    ensures
        r@ == repair_json(repair@),
{
    let mut m: TextMap<Value> = TextMap::new();
    assert(crate::json::member_views(m.entries()) =~= no_members());
    put(&mut m, "code", Value::Str(String::from_str(repair.code())));
    put(&mut m, "message", Value::Str(repair.to_string()));
    match repair {
        Repair::Coerced { path, from, to } => {
            put(&mut m, "path", text_value(path));
            put(&mut m, "from", text_value(from));
            put(&mut m, "to", text_value(to));
        },
        Repair::HedgeResolved { path, original } => {
            put(&mut m, "path", text_value(path));
            put(&mut m, "original", text_value(original));
        },
        Repair::CaseFolded { path, original } => {
            put(&mut m, "path", text_value(path));
            put(&mut m, "original", text_value(original));
        },
        _ => {},
    }
    Value::Obj(m)
}

/// A question as JSON: its candidates, path and prompt.
pub open spec fn question_json(q: QuestionView) -> JsonView {
    JsonView::Obj(
        with(
            with(
                with(no_members(), "candidates"@, strings_json(q.candidates)),
                "path"@,
                JsonView::Str(q.path),
            ),
            "prompt"@,
            JsonView::Str(q.prompt),
        ),
    )
}

/// A question as JSON.
pub fn question_value(question: &Question) -> (r: Value)
    ensures
        r@ == question_json(question@),
{
    let mut m: TextMap<Value> = TextMap::new();
    assert(crate::json::member_views(m.entries()) =~= no_members());
    put(&mut m, "candidates", string_array(&question.candidates));
    put(&mut m, "path", text_value(&question.path));
    put(&mut m, "prompt", text_value(&question.prompt));
    Value::Obj(m)
}

/// An answer as JSON: its path and value.
pub open spec fn answer_json(a: (Seq<char>, JsonView)) -> JsonView {
    JsonView::Obj(with(with(no_members(), "path"@, JsonView::Str(a.0)), "value"@, a.1))
}

/// An answer as JSON.
pub fn answer_value(answer: &Answer) -> (r: Value)
    ensures
        r@ == answer_json((answer.path@, answer.value@)),
{
    let mut m: TextMap<Value> = TextMap::new();
    assert(crate::json::member_views(m.entries()) =~= no_members());
    put(&mut m, "path", text_value(&answer.path));
    put(&mut m, "value", answer.value.duplicate());
    Value::Obj(m)
}

/// A digestion as an envelope: the answer ledger, the repair ledger, and
/// either the resolved value or the questions, with the status.
pub open spec fn digestion_json(
    o: OutcomeView,
    reps: Seq<RepairView>,
    answers: Seq<(Seq<char>, JsonView)>,
) -> JsonView {
    let base = with(
        with(
            no_members(),
            "answers"@,
            JsonView::Arr(answers.map_values(|a: (Seq<char>, JsonView)| answer_json(a))),
        ),
        "repairs"@,
        JsonView::Arr(reps.map_values(|r: RepairView| repair_json(r))),
    );
    JsonView::Obj(
        match o {
            OutcomeView::Resolved(v) => with(
                with(base, "status"@, JsonView::Str("resolved"@)),
                "value"@,
                v,
            ),
            OutcomeView::Clarify(qs) => with(
                with(
                    base,
                    "questions"@,
                    JsonView::Arr(qs.map_values(|q: QuestionView| question_json(q))),
                ),
                "status"@,
                JsonView::Str("clarify"@),
            ),
        },
    )
}

fn repairs_value(repairs: &Vec<Repair>) -> (r: Value)
    ensures
        r@ == JsonView::Arr(repair_views(repairs@).map_values(|x: RepairView| repair_json(x))),
{
    let ghost target = repair_views(repairs@).map_values(|x: RepairView| repair_json(x));
    let mut items: Vec<Value> = Vec::new();
    let mut i: usize = 0;
    while i < repairs.len()
        invariant
            i <= repairs@.len(),
            target == repair_views(repairs@).map_values(|x: RepairView| repair_json(x)),
            item_views(items@) == target.take(i as int),
        decreases repairs@.len() - i,
    {
        let ghost before = items@;
        let x = repair_value(&repairs[i]);
        items.push(x);
        assert(item_views(items@) =~= item_views(before).push(x@));
        assert(target.take(i + 1) =~= target.take(i as int).push(target[i as int]));
        i = i + 1;
    }
    assert(target.take(i as int) =~= target);
    Value::Arr(items)
}

fn answers_value(answers: &Vec<Answer>) -> (r: Value)
    ensures
        r@ == JsonView::Arr(
            answer_views(answers@).map_values(|a: (Seq<char>, JsonView)| answer_json(a)),
        ),
{
    let ghost target = answer_views(answers@).map_values(
        |a: (Seq<char>, JsonView)| answer_json(a),
    );
    let mut items: Vec<Value> = Vec::new();
    let mut i: usize = 0;
    while i < answers.len()
        invariant
            i <= answers@.len(),
            target == answer_views(answers@).map_values(|a: (Seq<char>, JsonView)| answer_json(a)),
            item_views(items@) == target.take(i as int),
        decreases answers@.len() - i,
    {
        let ghost before = items@;
        let x = answer_value(&answers[i]);
        items.push(x);
        assert(item_views(items@) =~= item_views(before).push(x@));
        assert(target.take(i + 1) =~= target.take(i as int).push(target[i as int]));
        i = i + 1;
    }
    assert(target.take(i as int) =~= target);
    Value::Arr(items)
}

fn questions_value(questions: &Vec<Question>) -> (r: Value)
    ensures
        r@ == JsonView::Arr(
            question_views(questions@).map_values(|q: QuestionView| question_json(q)),
        ),
{
    let ghost target = question_views(questions@).map_values(|q: QuestionView| question_json(q));
    let mut items: Vec<Value> = Vec::new();
    let mut i: usize = 0;
    while i < questions.len()
        invariant
            i <= questions@.len(),
            target == question_views(questions@).map_values(|q: QuestionView| question_json(q)),
            item_views(items@) == target.take(i as int),
        decreases questions@.len() - i,
    {
        let ghost before = items@;
        let x = question_value(&questions[i]);
        items.push(x);
        assert(item_views(items@) =~= item_views(before).push(x@));
        assert(target.take(i + 1) =~= target.take(i as int).push(target[i as int]));
        i = i + 1;
    }
    assert(target.take(i as int) =~= target);
    Value::Arr(items)
}

/// A digestion as an envelope.
pub fn digestion_envelope(digestion: &Digestion) -> (r: Value)
    ensures
        r@ == digestion_json(
            digestion.outcome@,
            repair_views(digestion.repairs@),
            answer_views(digestion.answers@),
        ),
{
    let mut m: TextMap<Value> = TextMap::new();
    assert(crate::json::member_views(m.entries()) =~= no_members());
    put(&mut m, "answers", answers_value(&digestion.answers));
    put(&mut m, "repairs", repairs_value(&digestion.repairs));
    match &digestion.outcome {
        Outcome::Resolved(value) => {
            put(&mut m, "status", Value::Str(String::from_str("resolved")));
            put(&mut m, "value", value.duplicate());
        },
        Outcome::Clarify(questions) => {
            put(&mut m, "questions", questions_value(questions));
            put(&mut m, "status", Value::Str(String::from_str("clarify")));
        },
    }
    Value::Obj(m)
}

// ---------------------------------------------------------------------------
// The envelope
// ---------------------------------------------------------------------------

/// Why a digestion produced no envelope of its own.
#[derive(Debug)]
pub enum DigestFailure {
    /// The model output could not be read, even after every repair pass.
    Parse(ParseError),
    /// An answer was refused.
    Answer(AnswerError),
}

pub open spec fn failure_view(f: DigestFailure) -> AnswerErrorView {
    match f {
        DigestFailure::Parse(e) => AnswerErrorView::Parse(e.at as int, e.msg@),
        DigestFailure::Answer(a) => a@,
    }
}

/// A failure as a rejection envelope, naming the stage and the path.
pub open spec fn failure_json(f: AnswerErrorView) -> JsonView {
    match f {
        AnswerErrorView::Parse(at, msg) => rejection_json(
            "output"@,
            "unrecoverable_output"@,
            msg,
            Some("byte "@ + dec_chars(at as nat)),
        ),
        AnswerErrorView::NotRequested(p) => rejection_json(
            "answer"@,
            "not_requested"@,
            "an answer may change only a path Digest questioned"@,
            Some(p),
        ),
        AnswerErrorView::Duplicate(p) => rejection_json(
            "answer"@,
            "duplicate_answer"@,
            "the same path was answered more than once"@,
            Some(p),
        ),
        AnswerErrorView::InvalidPath(p) => rejection_json(
            "answer"@,
            "invalid_path"@,
            "the questioned path cannot be updated in this value"@,
            Some(p),
        ),
    }
}

fn byte_path(at: usize) -> (r: String)
    ensures
        r@ == "byte "@ + dec_chars(at as nat),
{
    let mut p = String::from_str("byte ");
    p.append(usize_to_string(at).as_str());
    p
}

/// A failure as a rejection envelope.
pub fn failure_envelope(error: DigestFailure) -> (r: Value)
    ensures
        r@ == failure_json(failure_view(error)),
{
    match error {
        DigestFailure::Parse(e) => {
            let p = byte_path(e.at);
            rejection("output", "unrecoverable_output", e.msg.as_str(), Some(p.as_str()))
        },
        DigestFailure::Answer(AnswerError::Parse(e)) => {
            let p = byte_path(e.at);
            rejection("output", "unrecoverable_output", e.msg.as_str(), Some(p.as_str()))
        },
        DigestFailure::Answer(AnswerError::NotRequested { path }) => rejection(
            "answer",
            "not_requested",
            "an answer may change only a path Digest questioned",
            Some(path.as_str()),
        ),
        DigestFailure::Answer(AnswerError::Duplicate { path }) => rejection(
            "answer",
            "duplicate_answer",
            "the same path was answered more than once",
            Some(path.as_str()),
        ),
        DigestFailure::Answer(AnswerError::InvalidPath { path }) => rejection(
            "answer",
            "invalid_path",
            "the questioned path cannot be updated in this value",
            Some(path.as_str()),
        ),
    }
}

/// The exit status of an outcome: 0 resolved, 2 clarify.
pub open spec fn outcome_code(o: OutcomeView) -> int {
    if o is Resolved {
        0
    } else {
        2
    }
}

pub open spec fn opt_answers(a: Option<Vec<Answer>>) -> Option<Seq<(Seq<char>, JsonView)>> {
    match a {
        Some(v) => Some(answer_views(v@)),
        None => None,
    }
}

/// The envelope and exit status of digesting `raw` against `schema`, with
/// the answers when there are any: 0 resolved, 2 clarify, 1 rejected.
pub open spec fn metabolize_spec(
    schema: Schema,
    raw: Seq<char>,
    answers: Option<Seq<(Seq<char>, JsonView)>>,
) -> (JsonView, int) {
    match answers {
        Some(a) => match answered_spec(raw, schema, a) {
            Ok((o, reps)) => (digestion_json(o, reps, a), outcome_code(o)),
            Err(e) => (failure_json(e), 1),
        },
        None => match digest_spec(raw, schema) {
            Ok((o, reps)) => (digestion_json(o, reps, Seq::empty()), outcome_code(o)),
            Err((at, msg)) => (failure_json(AnswerErrorView::Parse(at, msg)), 1),
        },
    }
}

/// Digests model text against a schema, answering when answers are given,
/// and writes the one envelope the seam emits.
pub fn metabolize_with(schema: &Schema, raw: &str, answers: Option<Vec<Answer>>) -> (r: (Value, i32))
    ensures
        r.0@ == metabolize_spec(*schema, raw@, opt_answers(answers)).0,
        r.1 == metabolize_spec(*schema, raw@, opt_answers(answers)).1,
{
    let result = match answers {
        Some(a) => match digest_with_answers(raw, schema, a) {
            Ok(d) => Ok(d),
            Err(e) => Err(DigestFailure::Answer(e)),
        },
        None => match digest(raw, schema) {
            Ok(d) => {
                assert(answer_views(d.answers@) =~= Seq::<(Seq<char>, JsonView)>::empty());
                Ok(d)
            },
            Err(e) => Err(DigestFailure::Parse(e)),
        },
    };
    match result {
        Ok(digestion) => {
            let code = if digestion.is_resolved() {
                0
            } else {
                2
            };
            (digestion_envelope(&digestion), code)
        },
        Err(error) => (failure_envelope(error), 1),
    }
}

/// Reads the schema, then digests model text against it; a schema the
/// seam cannot honour is rejected with its path.
pub fn metabolize(schema_raw: &str, raw: &str, answers: Option<Vec<Answer>>) -> (r: (Value, i32))
    ensures
        match from_json_schema_spec(schema_raw@) {
            Err((path, message)) => r.0@ == rejection_json(
                "schema"@,
                "unsupported_schema"@,
                message,
                Some(path),
            ) && r.1 == 1,
            Ok(v) => exists|s: Schema|
                #[trigger] schema_view(s) == v && r.0@ == metabolize_spec(
                    s,
                    raw@,
                    opt_answers(answers),
                ).0 && r.1 == metabolize_spec(s, raw@, opt_answers(answers)).1,
        },
{
    match Schema::from_json_schema(schema_raw) {
        Ok(schema) => metabolize_with(&schema, raw, answers),
        Err(error) => (
            rejection(
                "schema",
                "unsupported_schema",
                error.message.as_str(),
                Some(error.path.as_str()),
            ),
            1,
        ),
    }
}

// ---------------------------------------------------------------------------
// Reading an answer
// ---------------------------------------------------------------------------

/// What `$.path=<json>` says: the path and the value, or why it is refused.
pub open spec fn answer_spec(raw: Seq<char>) -> Result<(Seq<char>, JsonView), Seq<char>> {
    let i = find_char(raw, '=');
    if i >= raw.len() {
        Err("expected '$.path=<json>'"@)
    } else {
        let path = raw.take(i);
        if !(path.len() > 0 && path[0] == '$') {
            Err("answer path "@ + debug_text(path) + " must start with `$`"@)
        } else {
            match p_document(raw.skip(i + 1)) {
                Err((at, msg)) => Err(
                    "invalid JSON value for "@ + path + ": "@ + "parse error at byte "@ + dec_chars(
                        at as nat,
                    ) + ": "@ + msg,
                ),
                Ok(v) => Ok((path, v)),
            }
        }
    }
}

/// Reads an answer written `$.path=<json>`: split at the first `=`, a path
/// starting with `$`, and a strict JSON value.
pub fn parse_answer(raw: &str) -> (r: Result<Answer, String>)
    ensures
        match answer_spec(raw@) {
            Ok((path, v)) => r matches Ok(a) && a.path@ == path && a.value@ == v,
            Err(m) => r matches Err(x) && x@ == m,
        },
{
    let chars = crate::text::chars_of(raw);
    let i = find_char_exec(chars.as_slice(), '=');
    if i >= chars.len() {
        return Err(String::from_str("expected '$.path=<json>'"));
    }
    let path_chars = vstd::slice::slice_subrange(chars.as_slice(), 0, i);
    let value_chars = vstd::slice::slice_subrange(chars.as_slice(), i + 1, chars.len());
    assert(path_chars@ =~= raw@.take(i as int));
    assert(value_chars@ =~= raw@.skip(i + 1));
    let path = string_from_chars(path_chars);
    if !(i > 0 && chars[0] == '$') {
        let mut message = String::from_str("answer path ");
        message.append(crate::text::debug_str(path.as_str()).as_str());
        message.append(" must start with `$`");
        return Err(message);
    }
    read_answer_value(path, value_chars)
}

fn read_answer_value(path: String, value: &[char]) -> (r: Result<Answer, String>)
    ensures
        match p_document(value@) {
            Err((at, msg)) => r matches Err(x) && x@ == "invalid JSON value for "@ + path@ + ": "@
                + "parse error at byte "@ + dec_chars(at as nat) + ": "@ + msg,
            Ok(v) => r matches Ok(a) && a.path@ == path@ && a.value@ == v,
        },
{
    let text = string_from_chars(value);
    match parse(text.as_str()) {
        Ok(v) => Ok(Answer::new(path.as_str(), v)),
        Err(e) => {
            let mut message = String::from_str("invalid JSON value for ");
            message.append(path.as_str());
            message.append(": ");
            message.append(e.to_string().as_str());
            Err(message)
        },
    }
}

} // verus!
