//! Lenient parsing: the strict parser first, then the named repair passes in
//! a fixed order, each logged when it changes the text; several complete
//! documents are refused rather than silently narrowed to one.

use vstd::prelude::*;

use crate::digest::Repair;
use crate::json::{p_document, parse, JsonView, ParseError, Value};
use crate::repair::{
    commas_from, extract_json, extract_json_spec, find_open, find_open_exec, keys_from,
    python_from, python_literals, quote_bare_keys, remove_trailing_commas, requote_from,
    requote_strings, span_end, span_end_exec, strip_fences, strip_fences_spec,
};
use crate::text::string_from_chars;

verus! {

/// A strict parse as plain values.
pub type Parsed = Result<JsonView, (int, Seq<char>)>;

/// The strict parse of `t`.
#[verifier::opaque]
pub open spec fn strict(t: Seq<char>) -> Parsed {
    p_document(t)
}

/// What pass `k` of the pipeline makes of `t`: fences, prose, quotes,
/// Python literals, bare keys, then trailing commas.
#[verifier::opaque]
pub open spec fn pass_output(k: int, t: Seq<char>) -> Option<Seq<char>> {
    if k == 0 {
        strip_fences_spec(t)
    } else if k == 1 {
        extract_json_spec(t)
    } else if k == 2 {
        Some(requote_from(t, 0, false))
    } else if k == 3 {
        Some(python_from(t, 0, false))
    } else if k == 4 {
        Some(keys_from(t, 0, false))
    } else {
        Some(commas_from(t, 0, false))
    }
}

/// The repair that pass `k` records.
pub open spec fn pass_tag(k: int) -> Repair {
    if k == 0 {
        Repair::StrippedFence
    } else if k == 1 {
        Repair::StrippedProse
    } else if k == 2 {
        Repair::RequotedStrings
    } else if k == 3 {
        Repair::PythonLiterals
    } else if k == 4 {
        Repair::QuotedKeys
    } else {
        Repair::RemovedTrailingCommas
    }
}

/// Passes `k..6` applied to `t`: a pass that changes the text is recorded
/// and the text parsed again; the first successful parse ends the run, and
/// otherwise the last parse error is reported.
pub open spec fn passes_from(k: int, t: Seq<char>, tags: Seq<Repair>, last: (int, Seq<char>)) -> (
    Parsed,
    Seq<Repair>,
)
    decreases 6 - k,
{
    if k >= 6 {
        (Err(last), tags)
    } else {
        match pass_output(k, t) {
            Some(c) => if c != t {
                match strict(c) {
                    Ok(v) => (Ok(v), tags.push(pass_tag(k))),
                    Err(e) => passes_from(k + 1, c, tags.push(pass_tag(k)), e),
                }
            } else {
                passes_from(k + 1, t, tags, last)
            },
            None => passes_from(k + 1, t, tags, last),
        }
    }
}

/// The whole repair pipeline on `t`: its parse and the repairs recorded.
pub open spec fn pipeline(t: Seq<char>) -> (Parsed, Seq<Repair>) {
    match strict(t) {
        Ok(v) => (Ok(v), Seq::empty()),
        Err(e) => passes_from(0, t, Seq::empty(), e),
    }
}

pub(crate) fn chars_eq(a: &Vec<char>, b: &Vec<char>) -> (r: bool)
    ensures
        r == (a@ == b@),
{
    if a.len() != b.len() {
        return false;
    }
    let mut i: usize = 0;
    while i < a.len()
        invariant
            a@.len() == b@.len(),
            i <= a@.len(),
            forall|k: int| 0 <= k < i ==> a@[k] == b@[k],
        decreases a@.len() - i,
    {
        if a[i] != b[i] {
            return false;
        }
        i = i + 1;
    }
    assert(a@ =~= b@);
    true
}

fn run_pass(k: usize, t: &Vec<char>) -> (r: Option<Vec<char>>)
    ensures
        match pass_output(k as int, t@) {
            Some(c) => r matches Some(v) && v@ == c,
            None => r is None,
        },
{
    proof {
        reveal(pass_output);
    }
    let s = t.as_slice();
    if k == 0 {
        strip_fences(s)
    } else if k == 1 {
        extract_json(s)
    } else if k == 2 {
        Some(requote_strings(s))
    } else if k == 3 {
        Some(python_literals(s))
    } else if k == 4 {
        Some(quote_bare_keys(s))
    } else {
        Some(remove_trailing_commas(s))
    }
}

fn tag_of(k: usize) -> (r: Repair)
    ensures
        r == pass_tag(k as int),
{
    if k == 0 {
        Repair::StrippedFence
    } else if k == 1 {
        Repair::StrippedProse
    } else if k == 2 {
        Repair::RequotedStrings
    } else if k == 3 {
        Repair::PythonLiterals
    } else if k == 4 {
        Repair::QuotedKeys
    } else {
        Repair::RemovedTrailingCommas
    }
}

/// Strictly parses a text given as characters.
pub fn parse_chars(t: &[char]) -> (r: Result<Value, ParseError>)
    ensures
        match strict(t@) {
            Ok(v) => r matches Ok(x) && x@ == v,
            Err((at, msg)) => r matches Err(e) && e.at == at && e.msg@ == msg,
        },
{
    proof {
        reveal(strict);
    }
    let s = string_from_chars(t);
    parse(s.as_str())
}

/// Parses `input`, falling back on the repair passes; every pass that
/// changed the text is appended to `repairs`.
pub fn repair_pipeline(input: &[char], repairs: &mut Vec<Repair>) -> (r: Result<Value, ParseError>)
    ensures
        final(repairs)@ == old(repairs)@ + pipeline(input@).1,
        match pipeline(input@).0 {
            Ok(v) => r matches Ok(x) && x@ == v,
            Err((at, msg)) => r matches Err(e) && e.at == at && e.msg@ == msg,
        },
{
    let first = parse_chars(input);
    let mut last = match first {
        Ok(v) => {
            proof {
                assert(old(repairs)@ + Seq::<Repair>::empty() =~= old(repairs)@);
            }
            return Ok(v);
        },
        Err(e) => e,
    };
    let ghost start = old(repairs)@;
    let mut text = vstd::slice::slice_to_vec(input);
    let ghost mut tags: Seq<Repair> = Seq::empty();
    let mut k: usize = 0;
    while k < 6
        invariant
            k <= 6,
            start == old(repairs)@,
            repairs@ == start + tags,
            pipeline(input@) == passes_from(k as int, text@, tags, (last.at as int, last.msg@)),
        decreases 6 - k,
    {
        let ghost prev_text = text@;
        let ghost prev_tags = tags;
        match run_pass(k, &text) {
            Some(changed) => {
                if !chars_eq(&changed, &text) {
                    let tag = tag_of(k);
                    repairs.push(tag);
                    proof {
                        tags = tags.push(pass_tag(k as int));
                        assert(repairs@ =~= start + tags);
                    }
                    text = changed;
                    match parse_chars(text.as_slice()) {
                        Ok(v) => {
                            assert(pipeline(input@) == passes_from(
                                k as int,
                                prev_text,
                                prev_tags,
                                (last.at as int, last.msg@),
                            ));
                            assert(pipeline(input@).1 == tags);
                            return Ok(v);
                        },
                        Err(e) => {
                            last = e;
                        },
                    }
                }
            },
            None => {},
        }
        k = k + 1;
    }
    Err(last)
}

/// Every complete balanced span from `from` on, in order, that survives the
/// repair pipeline on its own; a span that does not is skipped, and the
/// search goes on after it.
pub open spec fn documents_from(s: Seq<char>, from: int) -> Seq<Seq<char>>
    decreases s.len() - from,
{
    match find_open(s, from) {
        None => Seq::empty(),
        Some(open) => match span_end(s, open) {
            None => Seq::empty(),
            Some(end) => if from < end <= s.len() {
                let span = s.subrange(open, end);
                (if pipeline(span).0 is Ok {
                    seq![span]
                } else {
                    Seq::empty()
                }) + documents_from(s, end)
            } else {
                Seq::empty()
            },
        },
    }
}

pub open spec fn char_views(v: Seq<Vec<char>>) -> Seq<Seq<char>> {
    v.map_values(|x: Vec<char>| x@)
}

proof fn lemma_find_open_from(s: Seq<char>, i: int)
    requires
        0 <= i,
    ensures
        find_open(s, i) matches Some(o) ==> i <= o < s.len(),
    decreases s.len() - i,
{
    if i < s.len() && !crate::repair::is_open_bracket(s[i]) {
        lemma_find_open_from(s, i + 1);
    }
}

/// The complete balanced JSON spans of `text`, in order, that the repair
/// pipeline accepts on their own.
pub fn balanced_documents(text: &[char]) -> (r: Vec<Vec<char>>)
    ensures
        char_views(r@) == documents_from(text@, 0),
{
    let mut docs: Vec<Vec<char>> = Vec::new();
    let mut from: usize = 0;
    loop
        invariant
            from <= text@.len(),
            char_views(docs@) + documents_from(text@, from as int) == documents_from(text@, 0),
        decreases text@.len() - from,
    {
        proof {
            lemma_find_open_from(text@, from as int);
        }
        let ghost before = char_views(docs@);
        let ghost rest = documents_from(text@, from as int);
        let open = match find_open_exec(text, from) {
            None => {
                assert(before + Seq::<Seq<char>>::empty() =~= before);
                return docs;
            },
            Some(o) => o,
        };
        let end = match span_end_exec(text, open) {
            None => {
                assert(before + Seq::<Seq<char>>::empty() =~= before);
                return docs;
            },
            Some(e) => e,
        };
        let span = vstd::slice::slice_to_vec(vstd::slice::slice_subrange(text, open, end));
        let mut scratch: Vec<Repair> = Vec::new();
        let ok = repair_pipeline(span.as_slice(), &mut scratch).is_ok();
        if ok {
            docs.push(span);
            assert(char_views(docs@) =~= before.push(text@.subrange(open as int, end as int)));
        }
        assert(char_views(docs@) + documents_from(text@, end as int) =~= before + rest);
        from = end;
    }
}

/// The lenient parse: one value, or several complete documents that the
/// caller must choose between.
#[derive(Debug, PartialEq)]
pub enum Lenient {
    One(Value),
    Many(Vec<Vec<char>>),
}

pub enum LenientView {
    One(JsonView),
    Many(Seq<Seq<char>>),
}

pub open spec fn lenient_view(l: Lenient) -> LenientView {
    match l {
        Lenient::One(v) => LenientView::One(v@),
        Lenient::Many(d) => LenientView::Many(char_views(d@)),
    }
}

/// The text the pipeline works on after an initial fence strip, and the
/// repairs that strip recorded.
pub open spec fn unfenced(raw: Seq<char>) -> (Seq<char>, Seq<Repair>) {
    match strip_fences_spec(raw) {
        Some(t) => if t != raw {
            (t, seq![Repair::StrippedFence])
        } else {
            (raw, Seq::empty())
        },
        None => (raw, Seq::empty()),
    }
}

/// The lenient parse of `raw` and the repairs it records. A strict parse
/// wins outright; a fenced block is one declared document, so its fence is
/// stripped before asking whether the rest holds several documents.
pub open spec fn lenient(raw: Seq<char>) -> (Result<LenientView, (int, Seq<char>)>, Seq<Repair>) {
    match strict(raw) {
        Ok(v) => (Ok(LenientView::One(v)), Seq::empty()),
        Err(_) => {
            let (text, tags) = unfenced(raw);
            if tags.len() > 0 && strict(text) is Ok {
                (Ok(LenientView::One(strict(text)->Ok_0)), tags)
            } else {
                let docs = documents_from(text, 0);
                if docs.len() > 1 {
                    (Ok(LenientView::Many(docs)), tags)
                } else {
                    let (res, more) = pipeline(text);
                    (
                        match res {
                            Ok(v) => Ok(LenientView::One(v)),
                            Err(e) => Err(e),
                        },
                        tags + more,
                    )
                }
            }
        },
    }
}

/// Parses `raw` leniently, appending the repairs made to `repairs`.
pub fn parse_leniently(raw: &[char], repairs: &mut Vec<Repair>) -> (r: Result<Lenient, ParseError>)
    ensures
        final(repairs)@ == old(repairs)@ + lenient(raw@).1,
        match lenient(raw@).0 {
            Ok(l) => r matches Ok(x) && lenient_view(x) == l,
            Err((at, msg)) => r matches Err(e) && e.at == at && e.msg@ == msg,
        },
{
    if let Ok(v) = parse_chars(raw) {
        assert(old(repairs)@ + Seq::<Repair>::empty() =~= old(repairs)@);
        return Ok(Lenient::One(v));
    }
    let mut text = vstd::slice::slice_to_vec(raw);
    match strip_fences(raw) {
        Some(stripped) => {
            if !chars_eq(&stripped, &text) {
                text = stripped;
                repairs.push(Repair::StrippedFence);
                if let Ok(v) = parse_chars(text.as_slice()) {
                    assert(repairs@ =~= old(repairs)@ + seq![Repair::StrippedFence]);
                    return Ok(Lenient::One(v));
                }
            }
        },
        None => {},
    }
    assert(text@ == unfenced(raw@).0);
    assert(repairs@ =~= old(repairs)@ + unfenced(raw@).1);
    let documents = balanced_documents(text.as_slice());
    if documents.len() > 1 {
        return Ok(Lenient::Many(documents));
    }
    let r = repair_pipeline(text.as_slice(), repairs);
    assert(repairs@ =~= old(repairs)@ + (unfenced(raw@).1 + pipeline(text@).1));
    match r {
        Ok(v) => Ok(Lenient::One(v)),
        Err(e) => Err(e),
    }
}

/// The question raised when the input holds several complete documents.
pub open spec fn many_documents_prompt(n: nat) -> Seq<char> {
    "the input contains "@ + crate::text::dec_chars(n)
        + " complete JSON documents — which one did they mean?"@
}

/// The repair passes succeed only by recording the pass that made the text
/// parse.
proof fn lemma_passes_record(k: int, t: Seq<char>, tags: Seq<Repair>, last: (int, Seq<char>))
    ensures
        passes_from(k, t, tags, last).1.len() >= tags.len(),
        passes_from(k, t, tags, last).0 is Ok ==> passes_from(k, t, tags, last).1.len() > tags.len(),
    decreases 6 - k,
{
    if k < 6 {
        match pass_output(k, t) {
            Some(c) => if c != t {
                match strict(c) {
                    Ok(v) => {},
                    Err(e) => lemma_passes_record(k + 1, c, tags.push(pass_tag(k)), e),
                }
            } else {
                lemma_passes_record(k + 1, t, tags, last);
            },
            None => lemma_passes_record(k + 1, t, tags, last),
        }
    }
}

/// Repair is never silent: a lenient parse that gives one document and
/// records no repair is the strict parse of the text itself.
pub proof fn law_unrepaired_parse_is_strict(raw: Seq<char>)
    requires
        lenient(raw).0 matches Ok(LenientView::One(_)),
        lenient(raw).1.len() == 0,
    ensures
        strict(raw) matches Ok(v) && lenient(raw).0 == Ok::<LenientView, (int, Seq<char>)>(
            LenientView::One(v),
        ),
{
    if strict(raw) is Err {
        let (text, tags) = unfenced(raw);
        let docs = documents_from(text, 0);
        let (res, more) = pipeline(text);
        if !(tags.len() > 0 && strict(text) is Ok) && docs.len() <= 1 {
            assert((tags + more).len() == tags.len() + more.len());
            assert(text == raw);
            lemma_passes_record(0, raw, Seq::empty(), strict(raw)->Err_0);
        }
    }
}

proof fn lemma_strict_well_keyed(t: Seq<char>)
    ensures
        strict(t) matches Ok(v) ==> crate::json::well_keyed(v),
{
    reveal(strict);
    crate::json::lemma_document_well_keyed(t);
}

proof fn lemma_passes_well_keyed(k: int, t: Seq<char>, tags: Seq<Repair>, last: (int, Seq<char>))
    ensures
        passes_from(k, t, tags, last).0 matches Ok(v) ==> crate::json::well_keyed(v),
    decreases 6 - k,
{
    if k < 6 {
        match pass_output(k, t) {
            Some(c) => if c != t {
                lemma_strict_well_keyed(c);
                match strict(c) {
                    Ok(v) => {},
                    Err(e) => lemma_passes_well_keyed(k + 1, c, tags.push(pass_tag(k)), e),
                }
            } else {
                lemma_passes_well_keyed(k + 1, t, tags, last);
            },
            None => lemma_passes_well_keyed(k + 1, t, tags, last),
        }
    }
}

/// Every document a lenient parse gives keeps its object keys in order.
pub proof fn lemma_lenient_well_keyed(raw: Seq<char>)
    ensures
        lenient(raw).0 matches Ok(LenientView::One(v)) ==> crate::json::well_keyed(v),
{
    lemma_strict_well_keyed(raw);
    let (text, tags) = unfenced(raw);
    lemma_strict_well_keyed(text);
    if let Err(e) = strict(text) {
        lemma_passes_well_keyed(0, text, Seq::empty(), e);
    }
}

} // verus!
