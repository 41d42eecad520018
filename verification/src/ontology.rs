//! Versioned category definitions and their comparison, and the legislated
//! constraint layer over the grown ontology.

use vstd::prelude::*;

use crate::erasure::str_eq;
use crate::text::{
    blank, chars_of, debug_str, debug_text, dec_chars, is_blank, is_white_space, join, joined,
    string_from_chars, texts, usize_to_string, white_space,
};
use crate::textmap::{has_key, lookup, TextMap};

verus! {

/// The text with every run of white space reduced to one space and no white
/// space at either end, tracked with whether a separator is pending.
pub open spec fn collapse_state(s: Seq<char>) -> (Seq<char>, bool)
    decreases s.len(),
{
    if s.len() == 0 {
        (Seq::empty(), false)
    } else {
        let (out, pending) = collapse_state(s.drop_last());
        let c = s.last();
        if is_white_space(c) {
            (out, out.len() > 0)
        } else if pending {
            (out.push(' ').push(c), false)
        } else {
            (out.push(c), false)
        }
    }
}

/// The words of `s` (split at white space), joined by single spaces.
pub open spec fn collapse_white_space(s: Seq<char>) -> Seq<char> {
    collapse_state(s).0
}

/// Unicode lowercase of a text, as `str::to_lowercase` computes it
/// (full case mapping, including the final-sigma rule).
pub uninterp spec fn lowercase(s: Seq<char>) -> Seq<char>;

/// Every character is ASCII.
pub open spec fn is_ascii_text(s: Seq<char>) -> bool {
    forall|i: int| 0 <= i < s.len() ==> (#[trigger] s[i] as u32) < 128
}

/// Trusted: std's `str::to_lowercase`. Its result is named by [`lowercase`]
/// and depends only on the text. On ASCII text the Unicode lowercase
/// mapping is the ASCII one (`A`..`Z` to `a`..`z`, all else kept), as
/// `str::to_ascii_lowercase` documents for the ASCII range; nothing is
/// claimed of other text beyond the name.
#[verifier::external_body]
pub(crate) fn to_lowercase(s: &str) -> (r: String)
    ensures
        r@ == lowercase(s@),
        is_ascii_text(s@) ==> r@ == crate::check::ascii_lower(s@),
{
    s.to_lowercase()
}

/// A definition compared up to case and white space: ASCII text with its
/// letters lowercased, other text as `str::to_lowercase` maps it.
pub open spec fn canonical_definition_spec(d: Seq<char>) -> Seq<char> {
    let c = collapse_white_space(d);
    if is_ascii_text(c) {
        crate::check::ascii_lower(c)
    } else {
        lowercase(c)
    }
}

pub fn collapse(s: &str) -> (r: Vec<char>)
    ensures
        r@ == collapse_white_space(s@),
{
    let v = chars_of(s);
    let mut out: Vec<char> = Vec::new();
    let mut pending = false;
    let mut i: usize = 0;
    while i < v.len()
        invariant
            v@ == s@,
            i <= v@.len(),
            (out@, pending) == collapse_state(v@.take(i as int)),
        decreases v@.len() - i,
    {
        let ghost pre = v@.take(i + 1);
        assert(pre.drop_last() =~= v@.take(i as int));
        let c = v[i];
        if white_space(c) {
            pending = out.len() > 0;
        } else {
            if pending {
                out.push(' ');
            }
            out.push(c);
            pending = false;
        }
        i = i + 1;
    }
    assert(v@.take(i as int) =~= v@);
    out
}

/// `d`, lowercased, with its words joined by single spaces.
pub fn canonical_definition(d: &str) -> (r: String)
    ensures
        r@ == canonical_definition_spec(d@),
{
    let collapsed = collapse(d);
    let joined = string_from_chars(collapsed.as_slice());
    to_lowercase(joined.as_str())
}

pub open spec fn str_views(v: Seq<String>) -> Seq<Seq<char>> {
    v.map_values(|s: String| s@)
}

pub open spec fn opt_str(o: Option<String>) -> Option<Seq<char>> {
    match o {
        Some(s) => Some(s@),
        None => None,
    }
}

/// Text entries, values taken as texts.
pub open spec fn text_entries(e: Seq<(Seq<char>, String)>) -> Seq<(Seq<char>, Seq<char>)> {
    e.map_values(|p: (Seq<char>, String)| (p.0, p.1@))
}

/// The value the last pair with key `k` gives, if any pair has it.
pub open spec fn last_value(pairs: Seq<(Seq<char>, Seq<char>)>, k: Seq<char>) -> Option<Seq<char>>
    decreases pairs.len(),
{
    if pairs.len() == 0 {
        None
    } else if pairs.last().0 == k {
        Some(pairs.last().1)
    } else {
        last_value(pairs.drop_last(), k)
    }
}

pub open spec fn pair_views(pairs: Seq<(&str, &str)>) -> Seq<(Seq<char>, Seq<char>)> {
    pairs.map_values(|p: (&str, &str)| (p.0@, p.1@))
}

/// A map built from pairs: a later pair for the same key replaces an
/// earlier one.
pub fn map_from_pairs(pairs: &[(&str, &str)]) -> (m: TextMap<String>)
    ensures
        forall|k: Seq<char>|
            #![trigger lookup(m.entries(), k)]
            opt_str(lookup(m.entries(), k)) == last_value(pair_views(pairs@), k),
{
    let mut m: TextMap<String> = TextMap::new();
    let mut i: usize = 0;
    while i < pairs.len()
        invariant
            i <= pairs@.len(),
            forall|k: Seq<char>|
                #![trigger lookup(m.entries(), k)]
                opt_str(lookup(m.entries(), k)) == last_value(pair_views(pairs@).take(i as int), k),
        decreases pairs@.len() - i,
    {
        let (k, v) = pairs[i];
        let ghost pre = pair_views(pairs@).take(i + 1);
        assert(pre.drop_last() =~= pair_views(pairs@).take(i as int));
        m.insert(String::from_str(k), String::from_str(v));
        i = i + 1;
    }
    assert(pair_views(pairs@).take(i as int) =~= pair_views(pairs@));
    m
}

/// A versioned, inspectable vocabulary: concept names and their plain-text
/// definitions.
#[derive(Debug, PartialEq)]
pub struct OntologySnapshot {
    pub name: String,
    pub version: String,
    pub concepts: TextMap<String>,
}

/// Keys of `a` absent from `b`, in key order.
pub open spec fn keys_missing_from(
    a: Seq<(Seq<char>, String)>,
    b: Seq<(Seq<char>, String)>,
) -> Seq<Seq<char>> {
    a.filter_map(
        |e: (Seq<char>, String)|
            if !has_key(b, e.0) {
                Some(e.0)
            } else {
                None
            },
    )
}

/// Keys of `a` also in `b` whose definitions differ up to case and white
/// space, in key order.
pub open spec fn keys_redefined(
    a: Seq<(Seq<char>, String)>,
    b: Seq<(Seq<char>, String)>,
) -> Seq<Seq<char>> {
    a.filter_map(
        |e: (Seq<char>, String)|
            match lookup(b, e.0) {
                Some(d) => if canonical_definition_spec(e.1@) != canonical_definition_spec(d@) {
                    Some(e.0)
                } else {
                    None
                },
                None => None,
            },
    )
}

/// Added, removed and redefined concepts between two snapshots.
#[derive(Debug, Clone, PartialEq, Eq)]
pub struct OntologyDrift {
    pub ontology: String,
    pub from_version: String,
    pub to_version: String,
    pub added: Vec<String>,
    pub removed: Vec<String>,
    pub redefined: Vec<String>,
}

/// A labelled, bracketed list of concepts; nothing for an empty list.
pub open spec fn listed(label: Seq<char>, v: Seq<String>) -> Seq<char> {
    if v.len() == 0 {
        Seq::empty()
    } else {
        label + joined(texts(v), ", "@) + "]"@
    }
}

/// The summary line of a drift report.
pub open spec fn drift_text(d: OntologyDrift) -> Seq<char> {
    "ontology "@ + debug_text(d.ontology@) + " "@ + d.from_version@ + " → "@ + d.to_version@
        + ": +"@ + dec_chars(d.added.len() as nat) + " -"@ + dec_chars(d.removed.len() as nat)
        + " ~"@ + dec_chars(d.redefined.len() as nat) + listed(" · added ["@, d.added@) + listed(
        " · removed ["@,
        d.removed@,
    ) + listed(" · redefined ["@, d.redefined@)
}

fn append_listed(r: &mut String, label: &str, v: &Vec<String>)
    ensures
        final(r)@ == old(r)@ + listed(label@, v@),
{
    if v.len() > 0 {
        r.append(label);
        r.append(join(v, ", ").as_str());
        r.append("]");
    } else {
        proof {
            assert(old(r)@ + listed(label@, v@) =~= old(r)@);
        }
    }
}

impl OntologyDrift {
    /// A one-line summary: the ontology, both versions, the counts, and
    /// each non-empty list of concepts.
    pub fn to_string(&self) -> (r: String)
        ensures
            r@ == drift_text(*self),
    {
        let mut r = String::from_str("ontology ");
        r.append(debug_str(self.ontology.as_str()).as_str());
        r.append(" ");
        r.append(self.from_version.as_str());
        r.append(" → ");
        r.append(self.to_version.as_str());
        r.append(": +");
        r.append(usize_to_string(self.added.len()).as_str());
        r.append(" -");
        r.append(usize_to_string(self.removed.len()).as_str());
        r.append(" ~");
        r.append(usize_to_string(self.redefined.len()).as_str());
        append_listed(&mut r, " · added [", &self.added);
        append_listed(&mut r, " · removed [", &self.removed);
        append_listed(&mut r, " · redefined [", &self.redefined);
        r
    }

    pub fn is_empty(&self) -> (r: bool)
        ensures
            r == (self.added@.len() == 0 && self.removed@.len() == 0 && self.redefined@.len() == 0),
    {
        self.added.len() == 0 && self.removed.len() == 0 && self.redefined.len() == 0
    }
}

fn missing_keys(a: &TextMap<String>, b: &TextMap<String>) -> (r: Vec<String>)
    ensures
        str_views(r@) == keys_missing_from(a.entries(), b.entries()),
{
    let mut out: Vec<String> = Vec::new();
    let mut i: usize = 0;
    while i < a.len()
        invariant
            i <= a.entries().len(),
            str_views(out@) == keys_missing_from(a.entries().take(i as int), b.entries()),
        decreases a.entries().len() - i,
    {
        let (k, _) = a.entry(i);
        let ghost pre = a.entries().take(i + 1);
        assert(pre.drop_last() =~= a.entries().take(i as int));
        proof {
            use_type_invariant(b);
            crate::textmap::lemma_lookup_some(b.entries(), k@);
        }
        if !b.contains_key(k.as_str()) {
            out.push(k.clone());
            assert(str_views(out@) =~= keys_missing_from(pre, b.entries()));
        } else {
            assert(str_views(out@) =~= keys_missing_from(pre, b.entries()));
        }
        i = i + 1;
    }
    assert(a.entries().take(i as int) =~= a.entries());
    out
}

} // verus!

verus! {

fn redefined_keys(a: &TextMap<String>, b: &TextMap<String>) -> (r: Vec<String>)
    ensures
        str_views(r@) == keys_redefined(a.entries(), b.entries()),
{
    let mut out: Vec<String> = Vec::new();
    let mut i: usize = 0;
    while i < a.len()
        invariant
            i <= a.entries().len(),
            str_views(out@) == keys_redefined(a.entries().take(i as int), b.entries()),
        decreases a.entries().len() - i,
    {
        let (k, d) = a.entry(i);
        let ghost pre = a.entries().take(i + 1);
        assert(pre.drop_last() =~= a.entries().take(i as int));
        match b.get(k.as_str()) {
            Some(od) => {
                let x = canonical_definition(d.as_str());
                let y = canonical_definition(od.as_str());
                if !str_eq(x.as_str(), y.as_str()) {
                    out.push(k.clone());
                }
            },
            None => {},
        }
        assert(str_views(out@) =~= keys_redefined(pre, b.entries()));
        i = i + 1;
    }
    assert(a.entries().take(i as int) =~= a.entries());
    out
}

impl OntologySnapshot {
    /// A snapshot whose concepts come from `concepts`; a later pair for the
    /// same concept replaces an earlier one.
    pub fn new(name: &str, version: &str, concepts: &[(&str, &str)]) -> (r: Self)
        ensures
            r.name@ == name@,
            r.version@ == version@,
            forall|k: Seq<char>|
                #![trigger lookup(r.concepts.entries(), k)]
                opt_str(lookup(r.concepts.entries(), k)) == last_value(pair_views(concepts@), k),
    {
        OntologySnapshot {
            name: String::from_str(name),
            version: String::from_str(version),
            concepts: map_from_pairs(concepts),
        }
    }

    /// Compares this snapshot with a newer observed vocabulary: concepts
    /// only the observed one has, concepts it dropped, and concepts both
    /// have whose definitions differ beyond case and white space.
    pub fn compare(&self, observed: &OntologySnapshot) -> (r: OntologyDrift)
        ensures
            is_drift(r, *self, *observed),
            r.ontology@ == self.name@,
            r.from_version@ == self.version@,
            r.to_version@ == observed.version@,
            str_views(r.added@) == keys_missing_from(
                observed.concepts.entries(),
                self.concepts.entries(),
            ),
            str_views(r.removed@) == keys_missing_from(
                self.concepts.entries(),
                observed.concepts.entries(),
            ),
            str_views(r.redefined@) == keys_redefined(
                self.concepts.entries(),
                observed.concepts.entries(),
            ),
    {
        OntologyDrift {
            ontology: self.name.clone(),
            from_version: self.version.clone(),
            to_version: observed.version.clone(),
            added: missing_keys(&observed.concepts, &self.concepts),
            removed: missing_keys(&self.concepts, &observed.concepts),
            redefined: redefined_keys(&self.concepts, &observed.concepts),
        }
    }
}

/// `d` reports the change from `base` to `observed`: the concepts only
/// the observed snapshot has, those it dropped, and those redefined.
pub open spec fn is_drift(d: OntologyDrift, base: OntologySnapshot, observed: OntologySnapshot) -> bool {
    &&& d.ontology@ == base.name@
    &&& d.from_version@ == base.version@
    &&& d.to_version@ == observed.version@
    &&& str_views(d.added@) == keys_missing_from(observed.concepts.entries(), base.concepts.entries())
    &&& str_views(d.removed@) == keys_missing_from(base.concepts.entries(), observed.concepts.entries())
    &&& str_views(d.redefined@) == keys_redefined(base.concepts.entries(), observed.concepts.entries())
}

/// Two snapshots with the same name, version and concepts.
pub open spec fn same_snapshot(a: OntologySnapshot, b: OntologySnapshot) -> bool {
    a.name@ == b.name@ && a.version@ == b.version@ && a.concepts.entries() == b.concepts.entries()
}

impl OntologySnapshot {
    /// A copy of this snapshot.
    pub fn duplicate(&self) -> (r: Self)
        ensures
            same_snapshot(r, *self),
    {
        proof {
            self.concepts.lemma_entries_def();
            use_type_invariant(&self.concepts);
        }
        let mut entries: Vec<(String, String)> = Vec::new();
        let mut i: usize = 0;
        while i < self.concepts.entries.len()
            invariant
                i <= self.concepts.entries@.len(),
                entries@.len() == i,
                self.concepts.entries() == crate::textmap::entry_views(self.concepts.entries@),
                crate::textmap::entry_views(entries@) == crate::textmap::entry_views(
                    self.concepts.entries@,
                ).take(i as int),
            decreases self.concepts.entries@.len() - i,
        {
            let e = &self.concepts.entries[i];
            let k = e.0.clone();
            let v = e.1.clone();
            entries.push((k, v));
            assert(entries@[i as int].0@ == self.concepts.entries@[i as int].0@);
            assert(entries@[i as int].1 == self.concepts.entries@[i as int].1);
            assert(crate::textmap::entry_views(entries@) =~= crate::textmap::entry_views(
                self.concepts.entries@,
            ).take(i + 1));
            i = i + 1;
        }
        assert(crate::textmap::entry_views(self.concepts.entries@).take(
            self.concepts.entries@.len() as int,
        ) =~= crate::textmap::entry_views(self.concepts.entries@));
        OntologySnapshot {
            name: self.name.clone(),
            version: self.version.clone(),
            concepts: TextMap::from_sorted(entries),
        }
    }
}

/// Whether two optional definitions differ: one side missing, or both
/// present and different beyond case and white space.
pub open spec fn definitions_differ(a: Option<Seq<char>>, b: Option<Seq<char>>) -> bool {
    match (a, b) {
        (Some(x), Some(y)) => canonical_definition_spec(x) != canonical_definition_spec(y),
        (None, None) => false,
        _ => true,
    }
}

/// One concept's definition on both sides of a version boundary.
#[derive(Debug, Clone, PartialEq, Eq)]
pub struct ConceptProbe {
    pub concept: String,
    pub baseline_definition: Option<String>,
    pub observed_definition: Option<String>,
}

impl ConceptProbe {
    /// Whether the probed concept was added, removed, or materially
    /// redefined.
    pub fn changed(&self) -> (r: bool)
        ensures
            r == definitions_differ(
                opt_str(self.baseline_definition),
                opt_str(self.observed_definition),
            ),
    {
        match (&self.baseline_definition, &self.observed_definition) {
            (Some(baseline), Some(observed)) => {
                let x = canonical_definition(baseline.as_str());
                let y = canonical_definition(observed.as_str());
                !str_eq(x.as_str(), y.as_str())
            },
            (None, None) => false,
            _ => true,
        }
    }
}

/// A runner's observation of one committed behavior case.
#[derive(Debug, Clone, PartialEq, Eq)]
pub struct BehaviorReading {
    pub input: String,
    pub classification: String,
    pub route: String,
}

impl BehaviorReading {
    pub fn duplicate(&self) -> (r: Self)
        ensures
            r == *self,
    {
        BehaviorReading {
            input: self.input.clone(),
            classification: self.classification.clone(),
            route: self.route.clone(),
        }
    }
}

/// One case replayed on both sides.
#[derive(Debug, Clone, PartialEq, Eq)]
pub struct BehaviorProbe {
    pub case_id: String,
    pub input: String,
    pub baseline: BehaviorReading,
    pub observed: BehaviorReading,
}

impl BehaviorProbe {
    /// The classification or the route differs.
    pub fn changed(&self) -> (r: bool)
        ensures
            r == (self.baseline.classification@ != self.observed.classification@
                || self.baseline.route@ != self.observed.route@),
    {
        !str_eq(self.baseline.classification.as_str(), self.observed.classification.as_str())
            || !str_eq(self.baseline.route.as_str(), self.observed.route.as_str())
    }
}

/// Where a resolution came from.
#[derive(Debug, Clone, PartialEq, Eq)]
pub enum Source {
    /// The sedimented default: what the model grew.
    Grown,
    /// An explicit human rule, with its stated reason.
    Legislated { rule: String, reason: String },
}

#[derive(Debug, Clone, PartialEq, Eq)]
pub struct Resolution {
    pub value: String,
    pub source: Source,
}

impl Resolution {
    /// The value, then where it came from: `grown`, or the legislated reason.
    pub fn to_string(&self) -> (r: String)
        ensures
            r@ == self.value@ + match self.source {
                Source::Grown => " (grown)"@,
                Source::Legislated { reason, .. } => " (legislated: "@ + reason@ + ")"@,
            },
    {
        let mut r = self.value.clone();
        match &self.source {
            Source::Grown => r.append(" (grown)"),
            Source::Legislated { reason, .. } => {
                r.append(" (legislated: ");
                r.append(reason.as_str());
                r.append(")");
            },
        }
        r
    }
}

/// Refusal to enact an unaccountable rule.
#[derive(Debug, Clone, Copy, PartialEq, Eq, Structural)]
pub enum EnactError {
    /// The rule gave no reason.
    EmptyReason,
    /// The rule names no category.
    EmptyCategory,
}

impl EnactError {
    pub fn to_string(&self) -> (r: String)
        ensures
            r@ == match *self {
                EnactError::EmptyReason => "a rule without a reason cannot be enacted"@,
                EnactError::EmptyCategory => "a rule must name a non-empty category"@,
            },
    {
        match self {
            EnactError::EmptyReason => String::from_str("a rule without a reason cannot be enacted"),
            EnactError::EmptyCategory => String::from_str("a rule must name a non-empty category"),
        }
    }
}

/// The contestable constraint layer: per-category overrides of the grown
/// default, each carrying a reason.
pub struct Legislature {
    rules: TextMap<(String, String)>,
}

/// The (value, reason) rule in force for a category, as texts.
pub open spec fn rule_view(o: Option<(String, String)>) -> Option<(Seq<char>, Seq<char>)> {
    match o {
        Some(r) => Some((r.0@, r.1@)),
        None => None,
    }
}

/// `after` is `before` with `value` enacted for `category` for `reason`.
pub open spec fn enacted(
    before: Legislature,
    after: Legislature,
    category: Seq<char>,
    value: Seq<char>,
    reason: Seq<char>,
) -> bool {
    forall|c: Seq<char>|
        #[trigger] after.rule(c) == if c == category {
            Some((value, reason))
        } else {
            before.rule(c)
        }
}

/// `after` is `before` with the rule for `category` repealed.
pub open spec fn repealed(before: Legislature, after: Legislature, category: Seq<char>) -> bool {
    forall|c: Seq<char>|
        #[trigger] after.rule(c) == if c == category {
            None
        } else {
            before.rule(c)
        }
}

impl Legislature {
    /// The rule in force for `category`: its value and reason.
    pub closed spec fn rule(&self, category: Seq<char>) -> Option<(Seq<char>, Seq<char>)> {
        rule_view(lookup(self.rules.entries(), category))
    }

    pub fn new() -> (r: Self)
        ensures
            forall|c: Seq<char>| #[trigger] r.rule(c) is None,
    {
        Legislature { rules: TextMap::new() }
    }

    /// Enacts `value` for `category` with `reason`, replacing any rule in
    /// force for it. A blank category or a blank reason is refused, the
    /// category checked first, and nothing changes.
    pub fn enact(&mut self, category: &str, value: &str, reason: &str) -> (r: Result<(), EnactError>)
        ensures
            is_blank(category@) ==> r == Err::<(), EnactError>(EnactError::EmptyCategory),
            !is_blank(category@) && is_blank(reason@) ==> r == Err::<(), EnactError>(
                EnactError::EmptyReason,
            ),
            r is Ok <==> !is_blank(category@) && !is_blank(reason@),
            r is Err ==> forall|c: Seq<char>| #[trigger] final(self).rule(c) == old(self).rule(c),
            r is Ok ==> enacted(*old(self), *final(self), category@, value@, reason@),
    {
        if blank(category) {
            return Err(EnactError::EmptyCategory);
        }
        if blank(reason) {
            return Err(EnactError::EmptyReason);
        }
        self.rules.insert(
            String::from_str(category),
            (String::from_str(value), String::from_str(reason)),
        );
        Ok(())
    }

    /// Removes the rule for `category`; true when one was in force.
    pub fn repeal(&mut self, category: &str) -> (r: bool)
        ensures
            r == old(self).rule(category@) is Some,
            repealed(*old(self), *final(self), category@),
    {
        match self.rules.remove(category) {
            Some(_) => true,
            None => false,
        }
    }

    /// The legislated rule for `category` if one is in force, otherwise the
    /// grown default; either way the source is named.
    pub fn resolve(&self, category: &str, grown_default: &str) -> (r: Resolution)
        ensures
            match self.rule(category@) {
                Some((value, reason)) => r.value@ == value && (r.source matches Source::Legislated {
                    rule,
                    reason: why,
                } && rule@ == category@ && why@ == reason),
                None => r.value@ == grown_default@ && r.source == Source::Grown,
            },
    {
        match self.rules.get(category) {
            Some((value, reason)) => Resolution {
                value: value.clone(),
                source: Source::Legislated {
                    rule: String::from_str(category),
                    reason: reason.clone(),
                },
            },
            None => Resolution { value: String::from_str(grown_default), source: Source::Grown },
        }
    }
}

// ---------------------------------------------------------------------------
// What a comparison reports
// ---------------------------------------------------------------------------

proof fn lemma_nothing_missing(a: Seq<(Seq<char>, String)>, b: Seq<(Seq<char>, String)>)
    requires
        forall|i: int| 0 <= i < a.len() ==> has_key(b, #[trigger] a[i].0),
    ensures
        keys_missing_from(a, b).len() == 0,
    decreases a.len(),
{
    if a.len() > 0 {
        let pre = a.drop_last();
        assert forall|i: int| 0 <= i < pre.len() implies has_key(b, #[trigger] pre[i].0) by {
            assert(pre[i] == a[i]);
        }
        lemma_nothing_missing(pre, b);
        assert(has_key(b, a[a.len() - 1].0));
    }
}

proof fn lemma_nothing_redefined(a: Seq<(Seq<char>, String)>, b: Seq<(Seq<char>, String)>)
    requires
        forall|i: int|
            0 <= i < a.len() ==> (lookup(b, #[trigger] a[i].0) matches Some(d)
                ==> canonical_definition_spec(a[i].1@) == canonical_definition_spec(d@)),
    ensures
        keys_redefined(a, b).len() == 0,
    decreases a.len(),
{
    if a.len() > 0 {
        let pre = a.drop_last();
        assert forall|i: int| 0 <= i < pre.len() implies (lookup(b, #[trigger] pre[i].0) matches Some(
            d,
        ) ==> canonical_definition_spec(pre[i].1@) == canonical_definition_spec(d@)) by {
            assert(pre[i] == a[i]);
        }
        lemma_nothing_redefined(pre, b);
        assert(a.last() == a[a.len() - 1]);
    }
}

/// Case and white space are not meaning: when two snapshots name the same
/// concepts and each definition differs at most in case and white space,
/// the comparison reports nothing added, removed or redefined.
pub proof fn law_case_and_space_edits_are_not_drift(
    d: OntologyDrift,
    base: OntologySnapshot,
    observed: OntologySnapshot,
)
    requires
        crate::textmap::keys_increasing(base.concepts.entries()),
        crate::textmap::keys_increasing(observed.concepts.entries()),
        is_drift(d, base, observed),
        forall|k: Seq<char>|
            (#[trigger] lookup(base.concepts.entries(), k) is Some) <==> (lookup(
                observed.concepts.entries(),
                k,
            ) is Some),
        forall|k: Seq<char>|
            #![trigger lookup(base.concepts.entries(), k)]
            #![trigger lookup(observed.concepts.entries(), k)]
            lookup(base.concepts.entries(), k) is Some && lookup(observed.concepts.entries(), k) is Some
                ==> canonical_definition_spec(lookup(base.concepts.entries(), k)->Some_0@)
                == canonical_definition_spec(lookup(observed.concepts.entries(), k)->Some_0@),
    ensures
        d.added@.len() == 0,
        d.removed@.len() == 0,
        d.redefined@.len() == 0,
{
    let a = base.concepts.entries();
    let b = observed.concepts.entries();
    assert forall|i: int| 0 <= i < a.len() implies has_key(b, #[trigger] a[i].0) by {
        crate::textmap::lemma_lookup_index(a, a[i].0, i);
        crate::textmap::lemma_lookup_some(b, a[i].0);
    }
    assert forall|i: int| 0 <= i < b.len() implies has_key(a, #[trigger] b[i].0) by {
        crate::textmap::lemma_lookup_index(b, b[i].0, i);
        crate::textmap::lemma_lookup_some(a, b[i].0);
    }
    assert forall|i: int|
        0 <= i < a.len() implies (lookup(b, #[trigger] a[i].0) matches Some(y)
            ==> canonical_definition_spec(a[i].1@) == canonical_definition_spec(y@)) by {
        crate::textmap::lemma_lookup_index(a, a[i].0, i);
    }
    lemma_nothing_missing(a, b);
    lemma_nothing_missing(b, a);
    lemma_nothing_redefined(a, b);
}

proof fn lemma_collapse_ascii(s: Seq<char>)
    requires
        is_ascii_text(s),
    ensures
        is_ascii_text(collapse_state(s).0),
    decreases s.len(),
{
    if s.len() > 0 {
        let pre = s.drop_last();
        assert forall|i: int| 0 <= i < pre.len() implies (#[trigger] pre[i] as u32) < 128 by {
            assert(pre[i] == s[i]);
        }
        lemma_collapse_ascii(pre);
        assert((s[s.len() - 1] as u32) < 128);
        let (out, pending) = collapse_state(pre);
        let c = s.last();
        if !is_white_space(c) {
            let o2 = if pending {
                out.push(' ').push(c)
            } else {
                out.push(c)
            };
            assert forall|i: int| 0 <= i < o2.len() implies (#[trigger] o2[i] as u32) < 128 by {
                if i < out.len() {
                    assert(o2[i] == out[i]);
                }
            }
        }
    }
}

/// Case is not meaning: two ASCII definitions whose words agree once their
/// letters are lowercased have the same canonical form, so a case-only or
/// white-space-only edit is no redefinition.
pub proof fn law_ascii_case_edits_keep_the_canonical_form(a: Seq<char>, b: Seq<char>)
    requires
        is_ascii_text(a),
        is_ascii_text(b),
        crate::check::ascii_lower(collapse_white_space(a)) == crate::check::ascii_lower(
            collapse_white_space(b),
        ),
    ensures
        canonical_definition_spec(a) == canonical_definition_spec(b),
{
    lemma_collapse_ascii(a);
    lemma_collapse_ascii(b);
}

proof fn lemma_filter_map_has<A, B>(s: Seq<A>, f: spec_fn(A) -> Option<B>, i: int)
    requires
        0 <= i < s.len(),
        f(s[i]) is Some,
    ensures
        s.filter_map(f).contains(f(s[i])->Some_0),
    decreases s.len(),
{
    let x = f(s[i])->Some_0;
    if i == s.len() - 1 {
        let r = s.filter_map(f);
        assert(r[r.len() - 1] == x);
    } else {
        lemma_filter_map_has(s.drop_last(), f, i);
        let p = s.drop_last().filter_map(f);
        let j = choose|j: int| 0 <= j < p.len() && p[j] == x;
        let r = s.filter_map(f);
        assert(r[j] == x);
    }
}

/// A key is missing from `b` exactly when `a` holds it and `b` does not.
proof fn lemma_missing_contains(a: Seq<(Seq<char>, String)>, b: Seq<(Seq<char>, String)>, c: Seq<char>)
    ensures
        keys_missing_from(a, b).contains(c) <==> has_key(a, c) && !has_key(b, c),
{
    let f = |e: (Seq<char>, String)|
        if !has_key(b, e.0) {
            Some(e.0)
        } else {
            None
        };
    assert(keys_missing_from(a, b) == a.filter_map(f));
    if keys_missing_from(a, b).contains(c) {
        a.lemma_filter_map_contains(f, c);
        let t = choose|t: (Seq<char>, String)| #[trigger] a.contains(t) && f(t) == Some(c);
        let i = choose|i: int| 0 <= i < a.len() && a[i] == t;
        assert(a[i].0 == c);
    }
    if has_key(a, c) && !has_key(b, c) {
        let i = choose|i: int| 0 <= i < a.len() && #[trigger] a[i].0 == c;
        lemma_filter_map_has(a, f, i);
    }
}

/// A key is redefined exactly when both sides define it and the
/// definitions differ beyond case and white space.
proof fn lemma_redefined_contains(a: Seq<(Seq<char>, String)>, b: Seq<(Seq<char>, String)>, c: Seq<char>)
    requires
        crate::textmap::keys_increasing(a),
    ensures
        keys_redefined(a, b).contains(c) <==> (lookup(a, c) matches Some(x) && lookup(b, c) matches Some(
            y,
        ) && canonical_definition_spec(x@) != canonical_definition_spec(y@)),
{
    let f = |e: (Seq<char>, String)|
        match lookup(b, e.0) {
            Some(d) => if canonical_definition_spec(e.1@) != canonical_definition_spec(d@) {
                Some(e.0)
            } else {
                None
            },
            None => None,
        };
    assert(keys_redefined(a, b) == a.filter_map(f));
    if keys_redefined(a, b).contains(c) {
        a.lemma_filter_map_contains(f, c);
        let t = choose|t: (Seq<char>, String)| #[trigger] a.contains(t) && f(t) == Some(c);
        let i = choose|i: int| 0 <= i < a.len() && a[i] == t;
        crate::textmap::lemma_lookup_index(a, c, i);
    }
    if let Some(x) = lookup(a, c) {
        crate::textmap::lemma_lookup_some(a, c);
        let i = choose|i: int| 0 <= i < a.len() && #[trigger] a[i].0 == c;
        crate::textmap::lemma_lookup_index(a, c, i);
        if f(a[i]) is Some {
            lemma_filter_map_has(a, f, i);
        }
    }
}

/// The optional definition of `c` in a snapshot, as text.
pub open spec fn definition_of(s: OntologySnapshot, c: Seq<char>) -> Option<Seq<char>> {
    match lookup(s.concepts.entries(), c) {
        Some(x) => Some(x@),
        None => None,
    }
}

/// A concept probe agrees with the diff: the concept's definitions differ
/// across the two snapshots exactly when the comparison lists it as added,
/// removed or redefined.
pub proof fn law_probe_agrees_with_the_diff(
    d: OntologyDrift,
    base: OntologySnapshot,
    observed: OntologySnapshot,
    c: Seq<char>,
)
    requires
        crate::textmap::keys_increasing(base.concepts.entries()),
        crate::textmap::keys_increasing(observed.concepts.entries()),
        is_drift(d, base, observed),
    ensures
        definitions_differ(definition_of(base, c), definition_of(observed, c)) == (str_views(
            d.added@,
        ).contains(c) || str_views(d.removed@).contains(c) || str_views(d.redefined@).contains(c)),
{
    let a = base.concepts.entries();
    let b = observed.concepts.entries();
    lemma_missing_contains(b, a, c);
    lemma_missing_contains(a, b, c);
    lemma_redefined_contains(a, b, c);
    crate::textmap::lemma_lookup_some(a, c);
    crate::textmap::lemma_lookup_some(b, c);
}

/// Keys in strictly increasing order.
pub open spec fn keys_ascending(x: Seq<Seq<char>>) -> bool {
    forall|i: int, j: int| 0 <= i < j < x.len() ==> crate::textmap::key_lt(#[trigger] x[i], #[trigger] x[j])
}

proof fn lemma_redefined_ascending(a: Seq<(Seq<char>, String)>, b: Seq<(Seq<char>, String)>)
    requires
        crate::textmap::keys_increasing(a),
    ensures
        keys_ascending(keys_redefined(a, b)),
    decreases a.len(),
{
    if a.len() > 0 {
        let pre = a.drop_last();
        assert(crate::textmap::keys_increasing(pre)) by {
            assert forall|i: int, j: int| 0 <= i < j < pre.len() implies crate::textmap::key_lt(
                #[trigger] pre[i].0,
                #[trigger] pre[j].0,
            ) by {
                assert(pre[i] == a[i] && pre[j] == a[j]);
            }
        }
        lemma_redefined_ascending(pre, b);
        let f = |e: (Seq<char>, String)|
            match lookup(b, e.0) {
                Some(d) => if canonical_definition_spec(e.1@) != canonical_definition_spec(d@) {
                    Some(e.0)
                } else {
                    None
                },
                None => None,
            };
        assert(keys_redefined(a, b) == a.filter_map(f));
        assert(keys_redefined(pre, b) == pre.filter_map(f));
        let p = keys_redefined(pre, b);
        let r = keys_redefined(a, b);
        if f(a.last()) is Some {
            assert(r == p + seq![a.last().0]);
            assert forall|i: int, j: int| 0 <= i < j < r.len() implies crate::textmap::key_lt(
                #[trigger] r[i],
                #[trigger] r[j],
            ) by {
                if j < p.len() {
                    assert(r[i] == p[i] && r[j] == p[j]);
                } else {
                    assert(r[i] == p[i]);
                    assert(p.contains(p[i]));
                    pre.lemma_filter_map_contains(f, p[i]);
                    let t = choose|t: (Seq<char>, String)| #[trigger] pre.contains(t) && f(t) == Some(p[i]);
                    let k = choose|k: int| 0 <= k < pre.len() && pre[k] == t;
                    assert(a[k] == t);
                    assert(crate::textmap::key_lt(a[k].0, a[a.len() - 1].0));
                }
            }
        }
    }
}

proof fn lemma_ascending_ext(x: Seq<Seq<char>>, y: Seq<Seq<char>>)
    requires
        keys_ascending(x),
        keys_ascending(y),
        forall|c: Seq<char>| #[trigger] x.contains(c) == y.contains(c),
    ensures
        x == y,
{
    let xs = x.map_values(|k: Seq<char>| (k, ()));
    let ys = y.map_values(|k: Seq<char>| (k, ()));
    assert forall|k: Seq<char>| #[trigger] lookup(xs, k) == lookup(ys, k) by {
        crate::textmap::lemma_lookup_some(xs, k);
        crate::textmap::lemma_lookup_some(ys, k);
        if has_key(xs, k) {
            let i = choose|i: int| 0 <= i < xs.len() && #[trigger] xs[i].0 == k;
            assert(x[i] == k);
            assert(x.contains(k));
            assert(y.contains(k));
            let j = choose|j: int| 0 <= j < y.len() && y[j] == k;
            assert(ys[j].0 == k);
        }
        if has_key(ys, k) {
            let i = choose|i: int| 0 <= i < ys.len() && #[trigger] ys[i].0 == k;
            assert(y[i] == k);
            assert(y.contains(k));
            assert(x.contains(k));
            let j = choose|j: int| 0 <= j < x.len() && x[j] == k;
            assert(xs[j].0 == k);
        }
        crate::textmap::lemma_lookup_member(xs, k);
        crate::textmap::lemma_lookup_member(ys, k);
    }
    assert(crate::textmap::keys_increasing(xs)) by {
        assert forall|i: int, j: int| 0 <= i < j < xs.len() implies crate::textmap::key_lt(
            #[trigger] xs[i].0,
            #[trigger] xs[j].0,
        ) by {
            assert(xs[i].0 == x[i] && xs[j].0 == x[j]);
        }
    }
    assert(crate::textmap::keys_increasing(ys)) by {
        assert forall|i: int, j: int| 0 <= i < j < ys.len() implies crate::textmap::key_lt(
            #[trigger] ys[i].0,
            #[trigger] ys[j].0,
        ) by {
            assert(ys[i].0 == y[i] && ys[j].0 == y[j]);
        }
    }
    crate::textmap::lemma_sorted_ext(xs, ys);
    assert(x =~= y) by {
        assert(x.len() == xs.len() && y.len() == ys.len());
        assert forall|i: int| 0 <= i < x.len() implies x[i] == y[i] by {
            assert(xs[i].0 == x[i] && ys[i].0 == y[i]);
        }
    }
}

/// Redefinition is symmetric: comparing two snapshots either way lists the
/// same redefined concepts, in the same order.
pub proof fn law_redefinition_is_symmetric(
    d: OntologyDrift,
    e: OntologyDrift,
    a: OntologySnapshot,
    b: OntologySnapshot,
)
    requires
        crate::textmap::keys_increasing(a.concepts.entries()),
        crate::textmap::keys_increasing(b.concepts.entries()),
        is_drift(d, a, b),
        is_drift(e, b, a),
    ensures
        str_views(d.redefined@) == str_views(e.redefined@),
        str_views(d.added@) == str_views(e.removed@),
        str_views(d.removed@) == str_views(e.added@),
{
    let x = a.concepts.entries();
    let y = b.concepts.entries();
    lemma_redefined_ascending(x, y);
    lemma_redefined_ascending(y, x);
    assert forall|c: Seq<char>| #[trigger] keys_redefined(x, y).contains(c) == keys_redefined(
        y,
        x,
    ).contains(c) by {
        lemma_redefined_contains(x, y, c);
        lemma_redefined_contains(y, x, c);
    }
    lemma_ascending_ext(keys_redefined(x, y), keys_redefined(y, x));
}

/// A snapshot compared with itself is stable: nothing added, removed or
/// redefined.
pub proof fn law_self_comparison_is_stable(d: OntologyDrift, s: OntologySnapshot)
    requires
        crate::textmap::keys_increasing(s.concepts.entries()),
        is_drift(d, s, s),
    ensures
        d.added@.len() == 0,
        d.removed@.len() == 0,
        d.redefined@.len() == 0,
{
    law_case_and_space_edits_are_not_drift(d, s, s);
}

/// A repeal undoes an enactment: enacting a rule for a category that had
/// none and then repealing it leaves every category as it was.
pub proof fn law_repeal_undoes_enactment(
    l0: Legislature,
    l1: Legislature,
    l2: Legislature,
    category: Seq<char>,
    value: Seq<char>,
    reason: Seq<char>,
)
    requires
        l0.rule(category) is None,
        enacted(l0, l1, category, value, reason),
        repealed(l1, l2, category),
    ensures
        forall|c: Seq<char>| #[trigger] l2.rule(c) == l0.rule(c),
{
    assert forall|c: Seq<char>| #[trigger] l2.rule(c) == l0.rule(c) by {
        assert(l1.rule(c) == l1.rule(c));
    }
}

/// The latest enactment is in force: enacting twice for one category leaves
/// the second rule, and the other categories as they were.
pub proof fn law_latest_enactment_wins(
    l0: Legislature,
    l1: Legislature,
    l2: Legislature,
    category: Seq<char>,
    first: (Seq<char>, Seq<char>),
    second: (Seq<char>, Seq<char>),
)
    requires
        enacted(l0, l1, category, first.0, first.1),
        enacted(l1, l2, category, second.0, second.1),
    ensures
        l2.rule(category) == Some(second),
        forall|c: Seq<char>| c != category ==> #[trigger] l2.rule(c) == l0.rule(c),
{
    assert(l2.rule(category) == Some((second.0, second.1)));
    assert forall|c: Seq<char>| c != category implies #[trigger] l2.rule(c) == l0.rule(c) by {
        assert(l1.rule(c) == l0.rule(c));
    }
}

/// One call made on a legislature: an enactment (category, value,
/// reason) or a repeal (category).
pub enum LawOp {
    Enact(Seq<char>, Seq<char>, Seq<char>),
    Repeal(Seq<char>),
}

/// How a legislature changes under one call, as `enact` and `repeal`
/// state it: an accepted enactment puts its rule in force, a refused one
/// changes nothing, a repeal takes the category's rule away.
pub open spec fn law_step(before: Legislature, after: Legislature, op: LawOp) -> bool {
    match op {
        LawOp::Enact(c, v, r) => if !is_blank(c) && !is_blank(r) {
            enacted(before, after, c, v, r)
        } else {
            forall|k: Seq<char>| #[trigger] after.rule(k) == before.rule(k)
        },
        LawOp::Repeal(c) => repealed(before, after, c),
    }
}

/// The rule for `category` after the calls `ops` on a new legislature:
/// that of the last accepted enactment for it, unless a repeal of it came
/// later.
pub open spec fn rule_after(ops: Seq<LawOp>, category: Seq<char>) -> Option<(Seq<char>, Seq<char>)>
    decreases ops.len(),
{
    if ops.len() == 0 {
        None
    } else {
        match ops.last() {
            LawOp::Enact(c, v, r) => if c == category && !is_blank(c) && !is_blank(r) {
                Some((v, r))
            } else {
                rule_after(ops.drop_last(), category)
            },
            LawOp::Repeal(c) => if c == category {
                None
            } else {
                rule_after(ops.drop_last(), category)
            },
        }
    }
}

/// Over any sequence of calls on a new legislature, the rule in force for
/// a category after each call is the one the last accepted enactment for
/// it set, unless a repeal of it came later; so `resolve` gives that rule
/// with its reason, or the grown default, and each repeal reports whether
/// a rule was in force just before it.
pub proof fn law_rules_follow_the_latest_call(
    states: Seq<Legislature>,
    ops: Seq<LawOp>,
    category: Seq<char>,
    i: int,
)
    requires
        states.len() == ops.len() + 1,
        forall|k: Seq<char>| #[trigger] states[0].rule(k) is None,
        forall|j: int| 0 <= j < ops.len() ==> law_step(states[j], #[trigger] states[j + 1], ops[j]),
        0 <= i <= ops.len(),
    ensures
        states[i].rule(category) == rule_after(ops.take(i), category),
    decreases i,
{
    if i == 0 {
        assert(ops.take(0).len() == 0);
    } else {
        law_rules_follow_the_latest_call(states, ops, category, i - 1);
        assert(ops.take(i).drop_last() =~= ops.take(i - 1));
        assert(ops.take(i).last() == ops[i - 1]);
        let j = i - 1;
        assert(law_step(states[j], states[j + 1], ops[j]));
        assert(j + 1 == i);
    }
}

} // verus!
