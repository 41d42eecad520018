//! Store-independent erasure contracts: the boundary implemented by durable
//! stores, and the coordinator that refuses to call a multi-store request
//! complete until every adapter has verified absence.

use vstd::prelude::*;
use vstd::string::StringSliceAdditionalSpecFns;
use vstd::utf8::encode_utf8;

use crate::fnv::{fnv1a, fnv1a_extend, FNV_OFFSET};
use crate::text::{blank, hex16, hex_digits, is_blank, le_bytes, u64_le_bytes};

verus! {

/// The UTF-8 bytes of a text.
pub open spec fn utf8(s: Seq<char>) -> Seq<u8> {
    encode_utf8(s)
}

/// One length-prefixed field folded into a hash state: the byte length as
/// eight little-endian bytes, then the bytes themselves.
pub open spec fn hash_field_spec(h: u64, value: Seq<char>) -> u64 {
    fnv1a(fnv1a(h, le_bytes(utf8(value).len(), 8)), utf8(value))
}

/// Folds one length-prefixed text field into `hash`.
pub fn hash_field(hash: u64, value: &str) -> (r: u64)
    ensures
        r == hash_field_spec(hash, value@),
{
    let bytes = value.as_bytes();
    let len = u64_le_bytes(bytes.len() as u64);
    let h = fnv1a_extend(hash, len.as_slice());
    fnv1a_extend(h, bytes)
}

/// The unkeyed subject commitment carried by receipts.
pub open spec fn subject_commitment_spec(subject: Seq<char>) -> Seq<char> {
    "fnv1a64:"@ + hex_digits(hash_field_spec(FNV_OFFSET, subject), 16)
}

pub fn subject_commitment(subject: &str) -> (r: String)
    ensures
        r@ == subject_commitment_spec(subject@),
{
    let mut r = String::from_str("fnv1a64:");
    let hex = hex16(hash_field(FNV_OFFSET, subject));
    r.append(hex.as_str());
    r
}

/// Store behaviors that affect retention and erasure policy.
#[derive(Debug, Clone, Copy, PartialEq, Eq, Structural)]
pub struct StoreCapabilities {
    pub native_ttl: bool,
    pub vector_values: bool,
    pub auditable_sweeps: bool,
}

impl StoreCapabilities {
    pub fn new(native_ttl: bool, vector_values: bool, auditable_sweeps: bool) -> (r: Self)
        ensures
            r == (StoreCapabilities { native_ttl, vector_values, auditable_sweeps }),
    {
        StoreCapabilities { native_ttl, vector_values, auditable_sweeps }
    }
}

/// Why a request or a coordinator was refused.
#[derive(Debug, Clone, PartialEq, Eq)]
pub enum ContractError {
    EmptyRequestId,
    EmptySubject,
    NoAdapters,
    EmptyAdapterName,
    DuplicateAdapter(String),
}

impl ContractError {
    pub fn to_string(&self) -> (r: String)
        ensures
            r@ == match *self {
                ContractError::EmptyRequestId => "request_id must not be empty"@,
                ContractError::EmptySubject => "subject must not be empty"@,
                ContractError::NoAdapters => "at least one erasure adapter is required"@,
                ContractError::EmptyAdapterName => "erasure adapter names must not be empty"@,
                ContractError::DuplicateAdapter(name) => "duplicate erasure adapter: "@ + name@,
            },
    {
        match self {
            ContractError::EmptyRequestId => String::from_str("request_id must not be empty"),
            ContractError::EmptySubject => String::from_str("subject must not be empty"),
            ContractError::NoAdapters => String::from_str("at least one erasure adapter is required"),
            ContractError::EmptyAdapterName => String::from_str(
                "erasure adapter names must not be empty",
            ),
            ContractError::DuplicateAdapter(name) => {
                let mut r = String::from_str("duplicate erasure adapter: ");
                r.append(name.as_str());
                r
            },
        }
    }
}

/// One idempotent erasure intent.
#[derive(Debug, Clone, PartialEq, Eq)]
pub struct ErasureRequest {
    pub request_id: String,
    pub subject: String,
}

impl ErasureRequest {
    /// Both the request id and the subject must hold a non-white-space
    /// character; the request id is checked first.
    pub fn new(request_id: &str, subject: &str) -> (r: Result<Self, ContractError>)
        ensures
            is_blank(request_id@) ==> r == Err::<Self, ContractError>(ContractError::EmptyRequestId),
            !is_blank(request_id@) && is_blank(subject@) ==> r == Err::<Self, ContractError>(
                ContractError::EmptySubject,
            ),
            !is_blank(request_id@) && !is_blank(subject@) ==> (r matches Ok(req) && req.request_id@
                == request_id@ && req.subject@ == subject@),
    {
        if blank(request_id) {
            return Err(ContractError::EmptyRequestId);
        }
        if blank(subject) {
            return Err(ContractError::EmptySubject);
        }
        Ok(ErasureRequest {
            request_id: String::from_str(request_id),
            subject: String::from_str(subject),
        })
    }

    /// POC-only unkeyed commitment to the subject.
    pub fn subject_digest(&self) -> (r: String)
        ensures
            r@ == subject_commitment_spec(self.subject@),
    {
        subject_commitment(self.subject.as_str())
    }
}

/// A deliberately non-sensitive adapter failure classification.
#[derive(Debug, Clone, PartialEq, Eq)]
pub struct AdapterError {
    pub kind: String,
}

impl AdapterError {
    /// The error's kind, the only part a report shows.
    pub fn to_string(&self) -> (r: String)
        ensures
            r@ == self.kind@,
    {
        self.kind.clone()
    }

    /// A blank kind is replaced by `adapter_error`.
    pub fn new(kind: &str) -> (r: Self)
        ensures
            is_blank(kind@) ==> r.kind@ == "adapter_error"@,
            !is_blank(kind@) ==> r.kind@ == kind@,
    {
        if blank(kind) {
            AdapterError { kind: String::from_str("adapter_error") }
        } else {
            AdapterError { kind: String::from_str(kind) }
        }
    }
}

#[derive(Debug, Clone, Copy, PartialEq, Eq, Structural)]
pub enum StoreErasureStatus {
    Erased,
    AlreadyAbsent,
    Failed,
    VerificationFailed,
}

pub open spec fn store_status_name(s: StoreErasureStatus) -> Seq<char> {
    match s {
        StoreErasureStatus::Erased => "erased"@,
        StoreErasureStatus::AlreadyAbsent => "already_absent"@,
        StoreErasureStatus::Failed => "failed"@,
        StoreErasureStatus::VerificationFailed => "verification_failed"@,
    }
}

impl StoreErasureStatus {
    pub fn as_str(self) -> (r: &'static str)
        ensures
            r@ == store_status_name(self),
    {
        match self {
            StoreErasureStatus::Erased => "erased",
            StoreErasureStatus::AlreadyAbsent => "already_absent",
            StoreErasureStatus::Failed => "failed",
            StoreErasureStatus::VerificationFailed => "verification_failed",
        }
    }
}

/// What a store result says, as plain values.
pub struct ResultView {
    pub store: Seq<char>,
    pub request_id: Seq<char>,
    pub subject_digest: Seq<char>,
    pub status: StoreErasureStatus,
    pub erased: usize,
    pub verified_absent: bool,
    pub receipt: Seq<char>,
    pub error: Option<Seq<char>>,
}

pub open spec fn opt_view(o: Option<String>) -> Option<Seq<char>> {
    match o {
        Some(s) => Some(s@),
        None => None,
    }
}

/// One adapter's result. The receipt commits to the store's deleted records;
/// the coordinator separately re-queries the store and sets `verified_absent`.
#[derive(Debug, Clone, PartialEq, Eq)]
pub struct StoreErasureResult {
    pub store: String,
    pub request_id: String,
    pub subject_digest: String,
    pub status: StoreErasureStatus,
    pub erased: usize,
    pub verified_absent: bool,
    pub receipt: String,
    pub error: Option<String>,
}

impl View for StoreErasureResult {
    type V = ResultView;

    open spec fn view(&self) -> ResultView {
        ResultView {
            store: self.store@,
            request_id: self.request_id@,
            subject_digest: self.subject_digest@,
            status: self.status,
            erased: self.erased,
            verified_absent: self.verified_absent,
            receipt: self.receipt@,
            error: opt_view(self.error),
        }
    }
}

/// A result counts as complete when absence was verified and the store
/// either erased or found nothing.
pub open spec fn result_complete(r: ResultView) -> bool {
    r.verified_absent && (r.status == StoreErasureStatus::Erased || r.status
        == StoreErasureStatus::AlreadyAbsent)
}

pub fn copy_opt_string(o: &Option<String>) -> (r: Option<String>)
    ensures
        opt_view(r) == opt_view(*o),
{
    match o {
        Some(s) => Some(s.clone()),
        None => None,
    }
}

impl StoreErasureResult {
    /// A successful adapter answer: `AlreadyAbsent` when nothing was erased,
    /// `Erased` otherwise, not yet verified.
    pub fn successful(store: &str, request: &ErasureRequest, erased: usize, receipt: &str) -> (r:
        Self)
        ensures
            r@ == (ResultView {
                store: store@,
                request_id: request.request_id@,
                subject_digest: subject_commitment_spec(request.subject@),
                status: if erased == 0 {
                    StoreErasureStatus::AlreadyAbsent
                } else {
                    StoreErasureStatus::Erased
                },
                erased,
                verified_absent: false,
                receipt: receipt@,
                error: None,
            }),
    {
        StoreErasureResult {
            store: String::from_str(store),
            request_id: request.request_id.clone(),
            subject_digest: request.subject_digest(),
            status: if erased == 0 {
                StoreErasureStatus::AlreadyAbsent
            } else {
                StoreErasureStatus::Erased
            },
            erased,
            verified_absent: false,
            receipt: String::from_str(receipt),
            error: None,
        }
    }

    pub fn complete(&self) -> (r: bool)
        ensures
            r == result_complete(self@),
    {
        self.verified_absent && (match self.status {
            StoreErasureStatus::Erased | StoreErasureStatus::AlreadyAbsent => true,
            _ => false,
        })
    }

    /// A field-by-field copy.
    pub fn duplicate(&self) -> (r: Self)
        ensures
            r@ == self@,
    {
        StoreErasureResult {
            store: self.store.clone(),
            request_id: self.request_id.clone(),
            subject_digest: self.subject_digest.clone(),
            status: self.status,
            erased: self.erased,
            verified_absent: self.verified_absent,
            receipt: self.receipt.clone(),
            error: copy_opt_string(&self.error),
        }
    }
}

} // verus!

verus! {

/// Minimum durable-store boundary, implemented by each store. Implementations
/// own their idempotency ledger: replaying a request ID for the same subject
/// returns the original result, while reuse for another subject is an error.
///
/// An adapter has one name and one set of capabilities for its whole life:
/// `store_name` and `store_capabilities` state them, `name` and
/// `capabilities` report them, and no call changes them.
pub trait ErasureAdapter {
    /// The store's unique name.
    spec fn store_name(&self) -> String;

    /// The store's lifecycle capabilities.
    spec fn store_capabilities(&self) -> StoreCapabilities;

    fn name(&self) -> (r: &str)
        ensures
            r@ == self.store_name()@,
    ;

    fn capabilities(&self) -> (r: StoreCapabilities)
        ensures
            r == self.store_capabilities(),
    ;

    fn health(&mut self) -> (r: Result<(), AdapterError>)
        ensures
            final(self).store_name()@ == old(self).store_name()@,
            final(self).store_capabilities() == old(self).store_capabilities(),
    ;

    fn erase_subject(&mut self, request: &ErasureRequest) -> (r: Result<
        StoreErasureResult,
        AdapterError,
    >)
        ensures
            final(self).store_name()@ == old(self).store_name()@,
            final(self).store_capabilities() == old(self).store_capabilities(),
    ;

    fn verify_subject_absent(&mut self, subject: &str) -> (r: Result<bool, AdapterError>)
        ensures
            final(self).store_name()@ == old(self).store_name()@,
            final(self).store_capabilities() == old(self).store_capabilities(),
    ;
}

#[derive(Debug, Clone, Copy, PartialEq, Eq, Structural)]
pub enum ErasureReportStatus {
    Complete,
    Partial,
    Failed,
}

pub open spec fn report_status_name(s: ErasureReportStatus) -> Seq<char> {
    match s {
        ErasureReportStatus::Complete => "complete"@,
        ErasureReportStatus::Partial => "partial"@,
        ErasureReportStatus::Failed => "failed"@,
    }
}

impl ErasureReportStatus {
    pub fn as_str(self) -> (r: &'static str)
        ensures
            r@ == report_status_name(self),
    {
        match self {
            ErasureReportStatus::Complete => "complete",
            ErasureReportStatus::Partial => "partial",
            ErasureReportStatus::Failed => "failed",
        }
    }
}

/// The aggregate report of one request across every configured store.
#[derive(Debug, Clone, PartialEq, Eq)]
pub struct StoreErasureReport {
    pub request_id: String,
    pub subject_digest: String,
    pub status: ErasureReportStatus,
    pub stores: Vec<StoreErasureResult>,
    pub receipt: String,
}

impl StoreErasureReport {
    pub fn complete(&self) -> (r: bool)
        ensures
            r == (self.status == ErasureReportStatus::Complete),
    {
        match self.status {
            ErasureReportStatus::Complete => true,
            _ => false,
        }
    }
}

/// A configured store's name and lifecycle capabilities.
#[derive(Debug, Clone, PartialEq, Eq)]
pub struct StoreDescriptor {
    pub name: String,
    pub capabilities: StoreCapabilities,
}

/// Why an adapter's own result cannot be accepted, if it cannot.
pub open spec fn validation_issue(
    store: Seq<char>,
    request_id: Seq<char>,
    expected_subject: Seq<char>,
    r: ResultView,
) -> Option<Seq<char>> {
    if r.store != store {
        Some("store_mismatch"@)
    } else if r.request_id != request_id {
        Some("request_id_mismatch"@)
    } else if r.subject_digest != expected_subject {
        Some("subject_mismatch"@)
    } else if is_blank(r.receipt) {
        Some("missing_receipt"@)
    } else {
        None
    }
}

/// Checks that an adapter answered for itself, this request and this
/// subject, and left a receipt.
pub fn validate_result(
    store: &str,
    request: &ErasureRequest,
    expected_subject: &str,
    result: &StoreErasureResult,
) -> (r: Option<String>)
    ensures
        opt_view(r) == validation_issue(store@, request.request_id@, expected_subject@, result@),
{
    if !str_eq(result.store.as_str(), store) {
        return Some(String::from_str("store_mismatch"));
    }
    if !str_eq(result.request_id.as_str(), request.request_id.as_str()) {
        return Some(String::from_str("request_id_mismatch"));
    }
    if !str_eq(result.subject_digest.as_str(), expected_subject) {
        return Some(String::from_str("subject_mismatch"));
    }
    if blank(result.receipt.as_str()) {
        return Some(String::from_str("missing_receipt"));
    }
    None
}

/// Equality of two texts.
pub fn str_eq(a: &str, b: &str) -> (r: bool)
    ensures
        r == (a@ == b@),
{
    let x = crate::text::chars_of(a);
    let y = crate::text::chars_of(b);
    if x.len() != y.len() {
        return false;
    }
    let mut i: usize = 0;
    while i < x.len()
        invariant
            x@ == a@,
            y@ == b@,
            x@.len() == y@.len(),
            i <= x@.len(),
            forall|k: int| 0 <= k < i ==> x@[k] == y@[k],
        decreases x@.len() - i,
    {
        if x[i] != y[i] {
            return false;
        }
        i = i + 1;
    }
    assert(x@ =~= y@);
    true
}

/// The hash committed to by the receipt of a failed store result.
pub open spec fn failed_hash(
    store: Seq<char>,
    request_id: Seq<char>,
    subject_digest: Seq<char>,
    kind: Seq<char>,
) -> u64 {
    hash_field_spec(
        hash_field_spec(hash_field_spec(hash_field_spec(FNV_OFFSET, store), request_id), subject_digest),
        kind,
    )
}

/// The result recorded for a store whose answer could not be accepted.
pub open spec fn failed_view(
    store: Seq<char>,
    request_id: Seq<char>,
    subject_digest: Seq<char>,
    kind: Seq<char>,
) -> ResultView {
    ResultView {
        store,
        request_id,
        subject_digest,
        status: StoreErasureStatus::Failed,
        erased: 0,
        verified_absent: false,
        receipt: "lethe://store/"@ + store + "/failed/"@ + hex_digits(
            failed_hash(store, request_id, subject_digest, kind),
            16,
        ),
        error: Some(kind),
    }
}

pub fn failed_result(store: &str, request: &ErasureRequest, subject_digest: &str, kind: &str) -> (r:
    StoreErasureResult)
    ensures
        r@ == failed_view(store@, request.request_id@, subject_digest@, kind@),
{
    let mut hash = FNV_OFFSET;
    hash = hash_field(hash, store);
    hash = hash_field(hash, request.request_id.as_str());
    hash = hash_field(hash, subject_digest);
    hash = hash_field(hash, kind);
    let mut receipt = String::from_str("lethe://store/");
    receipt.append(store);
    receipt.append("/failed/");
    let hex = hex16(hash);
    receipt.append(hex.as_str());
    StoreErasureResult {
        store: String::from_str(store),
        request_id: request.request_id.clone(),
        subject_digest: String::from_str(subject_digest),
        status: StoreErasureStatus::Failed,
        erased: 0,
        verified_absent: false,
        receipt,
        error: Some(String::from_str(kind)),
    }
}

/// What the coordinator records once it has re-queried the store.
pub open spec fn verified_view(r: ResultView, verify: Result<bool, Seq<char>>) -> ResultView {
    match verify {
        Ok(true) => ResultView { verified_absent: true, ..r },
        Ok(false) => ResultView {
            status: StoreErasureStatus::VerificationFailed,
            verified_absent: false,
            error: Some("verification_failed"@),
            ..r
        },
        Err(kind) => ResultView {
            status: StoreErasureStatus::VerificationFailed,
            verified_absent: false,
            error: Some(kind),
            ..r
        },
    }
}

pub open spec fn verify_view(v: Result<bool, AdapterError>) -> Result<bool, Seq<char>> {
    match v {
        Ok(b) => Ok(b),
        Err(e) => Err(e.kind@),
    }
}

/// Records the outcome of the absence check on an accepted result.
pub fn apply_verification(result: StoreErasureResult, verify: Result<bool, AdapterError>) -> (r:
    StoreErasureResult)
    ensures
        r@ == verified_view(result@, verify_view(verify)),
{
    let mut result = result;
    match verify {
        Ok(true) => {
            result.verified_absent = true;
        },
        Ok(false) => {
            result.status = StoreErasureStatus::VerificationFailed;
            result.verified_absent = false;
            result.error = Some(String::from_str("verification_failed"));
        },
        Err(error) => {
            result.status = StoreErasureStatus::VerificationFailed;
            result.verified_absent = false;
            result.error = Some(error.kind);
        },
    }
    result
}

} // verus!

verus! {

pub open spec fn views(s: Seq<StoreErasureResult>) -> Seq<ResultView> {
    s.map_values(|r: StoreErasureResult| r@)
}

/// Orders results by the bytes of their store name.
pub open spec fn store_before(a: ResultView, b: ResultView) -> bool {
    crate::text::bytes_lt(utf8(a.store), utf8(b.store))
}

/// Inserts `x` after every result it does not precede (a stable insertion).
pub open spec fn insert_by_store(s: Seq<ResultView>, x: ResultView) -> Seq<ResultView>
    decreases s.len(),
{
    if s.len() == 0 {
        seq![x]
    } else if store_before(x, s[0]) {
        seq![x] + s
    } else {
        seq![s[0]] + insert_by_store(s.drop_first(), x)
    }
}

/// The results stably sorted by store name: the canonical receipt order.
pub open spec fn sort_by_store(s: Seq<ResultView>) -> Seq<ResultView>
    decreases s.len(),
{
    if s.len() == 0 {
        Seq::empty()
    } else {
        insert_by_store(sort_by_store(s.drop_last()), s.last())
    }
}

/// The number of complete results.
pub open spec fn completed_count(s: Seq<ResultView>) -> nat
    decreases s.len(),
{
    if s.len() == 0 {
        0
    } else {
        completed_count(s.drop_last()) + if result_complete(s.last()) {
            1nat
        } else {
            0nat
        }
    }
}

/// Complete when every store completed, failed when none did, else partial.
pub open spec fn aggregate_status(s: Seq<ResultView>) -> ErasureReportStatus {
    if completed_count(s) == s.len() {
        ErasureReportStatus::Complete
    } else if completed_count(s) == 0 {
        ErasureReportStatus::Failed
    } else {
        ErasureReportStatus::Partial
    }
}

pub open spec fn error_text(e: Option<Seq<char>>) -> Seq<char> {
    match e {
        Some(t) => t,
        None => Seq::empty(),
    }
}

/// One store's contribution to the aggregate receipt hash.
pub open spec fn entry_hash(h: u64, r: ResultView) -> u64 {
    let h1 = hash_field_spec(hash_field_spec(h, r.store), store_status_name(r.status));
    let h2 = fnv1a(h1, le_bytes(r.erased as nat, 8));
    let h3 = fnv1a(
        h2,
        seq![
            if r.verified_absent {
                1u8
            } else {
                0u8
            },
        ],
    );
    hash_field_spec(hash_field_spec(h3, r.receipt), error_text(r.error))
}

pub open spec fn entries_hash(h: u64, s: Seq<ResultView>) -> u64
    decreases s.len(),
{
    if s.len() == 0 {
        h
    } else {
        entry_hash(entries_hash(h, s.drop_last()), s.last())
    }
}

/// The hash behind the aggregate receipt: request id, subject commitment,
/// status, then every store result in store-name order.
pub open spec fn report_hash(
    request_id: Seq<char>,
    subject_digest: Seq<char>,
    results: Seq<ResultView>,
) -> u64 {
    let h = hash_field_spec(
        hash_field_spec(hash_field_spec(FNV_OFFSET, request_id), subject_digest),
        report_status_name(aggregate_status(results)),
    );
    entries_hash(h, sort_by_store(results))
}

pub open spec fn report_receipt(
    request_id: Seq<char>,
    subject_digest: Seq<char>,
    results: Seq<ResultView>,
) -> Seq<char> {
    "lethe://request/"@ + hex_digits(report_hash(request_id, subject_digest, results), 16)
}

proof fn lemma_insert_at(s: Seq<ResultView>, x: ResultView, p: int)
    requires
        0 <= p <= s.len(),
        forall|k: int| 0 <= k < p ==> !store_before(x, #[trigger] s[k]),
        p == s.len() || store_before(x, s[p]),
    ensures
        insert_by_store(s, x) == s.take(p).push(x) + s.skip(p),
    decreases s.len(),
{
    if s.len() == 0 {
        assert(s.take(p).push(x) + s.skip(p) =~= seq![x]);
    } else if p == 0 {
        assert(s.take(p).push(x) + s.skip(p) =~= seq![x] + s);
    } else {
        let t = s.drop_first();
        assert forall|k: int| 0 <= k < p - 1 implies !store_before(x, #[trigger] t[k]) by {
            assert(t[k] == s[k + 1]);
        }
        lemma_insert_at(t, x, p - 1);
        assert(s.take(p).push(x) + s.skip(p) =~= seq![s[0]] + (t.take(p - 1).push(x) + t.skip(
            p - 1,
        )));
    }
}

fn store_lt(a: &StoreErasureResult, b: &StoreErasureResult) -> (r: bool)
    ensures
        r == store_before(a@, b@),
{
    crate::text::slice_lt(a.store.as_str().as_bytes(), b.store.as_str().as_bytes())
}

/// The results, copied and stably sorted by store name.
pub fn sorted_by_store(results: &Vec<StoreErasureResult>) -> (r: Vec<StoreErasureResult>)
    ensures
        views(r@) == sort_by_store(views(results@)),
{
    let mut sorted: Vec<StoreErasureResult> = Vec::new();
    let mut i: usize = 0;
    while i < results.len()
        invariant
            i <= results@.len(),
            views(sorted@) == sort_by_store(views(results@).take(i as int)),
        decreases results@.len() - i,
    {
        let x = results[i].duplicate();
        let mut p: usize = 0;
        while p < sorted.len() && !store_lt(&x, &sorted[p])
            invariant
                p <= sorted@.len(),
                forall|k: int| 0 <= k < p ==> !store_before(x@, #[trigger] views(sorted@)[k]),
            decreases sorted@.len() - p,
        {
            p = p + 1;
        }
        let ghost before = views(sorted@);
        proof {
            lemma_insert_at(before, x@, p as int);
            let pre = views(results@).take(i + 1);
            assert(pre.drop_last() =~= views(results@).take(i as int));
            assert(pre.last() == x@);
        }
        sorted.insert(p, x);
        assert(views(sorted@) =~= before.take(p as int).push(x@) + before.skip(p as int));
        i = i + 1;
    }
    assert(views(results@).take(i as int) =~= views(results@));
    sorted
}

fn count_completed(results: &Vec<StoreErasureResult>) -> (n: usize)
    ensures
        n == completed_count(views(results@)),
{
    let mut n: usize = 0;
    let mut i: usize = 0;
    while i < results.len()
        invariant
            i <= results@.len(),
            n == completed_count(views(results@).take(i as int)),
            n <= i,
        decreases results@.len() - i,
    {
        let ghost pre = views(results@).take(i + 1);
        assert(pre.drop_last() =~= views(results@).take(i as int));
        if results[i].complete() {
            n = n + 1;
        }
        i = i + 1;
    }
    assert(views(results@).take(i as int) =~= views(results@));
    n
}

pub fn aggregate(results: &Vec<StoreErasureResult>) -> (r: ErasureReportStatus)
    ensures
        r == aggregate_status(views(results@)),
{
    let completed = count_completed(results);
    if completed == results.len() {
        ErasureReportStatus::Complete
    } else if completed == 0 {
        ErasureReportStatus::Failed
    } else {
        ErasureReportStatus::Partial
    }
}

fn hash_entry(h: u64, r: &StoreErasureResult) -> (out: u64)
    ensures
        out == entry_hash(h, r@),
{
    let mut hash = hash_field(h, r.store.as_str());
    hash = hash_field(hash, r.status.as_str());
    let erased = u64_le_bytes(r.erased as u64);
    hash = fnv1a_extend(hash, erased.as_slice());
    let mut flag: Vec<u8> = Vec::new();
    flag.push(if r.verified_absent { 1u8 } else { 0u8 });
    assert(flag@ =~= seq![if r.verified_absent { 1u8 } else { 0u8 }]);
    hash = fnv1a_extend(hash, flag.as_slice());
    hash = hash_field(hash, r.receipt.as_str());
    match &r.error {
        Some(e) => hash_field(hash, e.as_str()),
        None => {
            proof {
                reveal_strlit("");
            }
            assert(""@ =~= Seq::<char>::empty());
            hash_field(hash, "")
        },
    }
}

/// Assembles the aggregate report: status from the count of complete
/// results, and a receipt that commits to every store result in store-name
/// order.
pub fn build_report(request: &ErasureRequest, subject_digest: String, results: Vec<
    StoreErasureResult,
>) -> (r: StoreErasureReport)
    ensures
        r.request_id@ == request.request_id@,
        r.subject_digest@ == subject_digest@,
        r.status == aggregate_status(views(results@)),
        views(r.stores@) == views(results@),
        r.receipt@ == report_receipt(request.request_id@, subject_digest@, views(results@)),
{
    let status = aggregate(&results);
    let canonical = sorted_by_store(&results);
    let mut hash = hash_field(FNV_OFFSET, request.request_id.as_str());
    hash = hash_field(hash, subject_digest.as_str());
    hash = hash_field(hash, status.as_str());
    let ghost h0 = hash;
    let mut i: usize = 0;
    while i < canonical.len()
        invariant
            i <= canonical@.len(),
            hash == entries_hash(h0, views(canonical@).take(i as int)),
        decreases canonical@.len() - i,
    {
        let ghost pre = views(canonical@).take(i + 1);
        assert(pre.drop_last() =~= views(canonical@).take(i as int));
        hash = hash_entry(hash, &canonical[i]);
        i = i + 1;
    }
    assert(views(canonical@).take(i as int) =~= views(canonical@));
    let mut receipt = String::from_str("lethe://request/");
    let hex = hex16(hash);
    receipt.append(hex.as_str());
    StoreErasureReport {
        request_id: request.request_id.clone(),
        subject_digest,
        status,
        stores: results,
        receipt,
    }
}

} // verus!

verus! {

/// The name at `k` is blank or repeats an earlier name.
pub open spec fn name_issue_at(names: Seq<Seq<char>>, k: int) -> bool {
    is_blank(names[k]) || exists|j: int| 0 <= j < k && names[j] == names[k]
}

/// The error for the first offending name at `k`.
pub open spec fn name_error(names: Seq<Seq<char>>, k: int, e: ContractError) -> bool {
    if is_blank(names[k]) {
        e == ContractError::EmptyAdapterName
    } else {
        e matches ContractError::DuplicateAdapter(s) && s@ == names[k]
    }
}

pub open spec fn name_views(names: Seq<String>) -> Seq<Seq<char>> {
    names.map_values(|s: String| s@)
}

/// Checks the adapter names a coordinator was configured with: at least one,
/// none blank, none repeated. The first offending name decides the error.
pub fn validate_adapter_names(names: &Vec<String>) -> (r: Result<(), ContractError>)
    ensures
        names@.len() == 0 ==> r == Err::<(), ContractError>(ContractError::NoAdapters),
        r is Ok <==> names@.len() > 0 && forall|k: int|
            0 <= k < names@.len() ==> !name_issue_at(name_views(names@), k),
        names@.len() > 0 ==> (r matches Err(e) ==> exists|k: int|
            0 <= k < names@.len() && name_issue_at(name_views(names@), k) && (forall|j: int|
                0 <= j < k ==> !name_issue_at(name_views(names@), j)) && name_error(
                name_views(names@),
                k,
                e,
            )),
{
    let ghost nv = name_views(names@);
    if names.len() == 0 {
        return Err(ContractError::NoAdapters);
    }
    let mut i: usize = 0;
    while i < names.len()
        invariant
            nv == name_views(names@),
            i <= names@.len(),
            forall|k: int| 0 <= k < i ==> !name_issue_at(nv, k),
        decreases names@.len() - i,
    {
        if blank(names[i].as_str()) {
            assert(nv[i as int] == names@[i as int]@);
            assert(name_issue_at(nv, i as int));
            assert(name_error(nv, i as int, ContractError::EmptyAdapterName));
            return Err(ContractError::EmptyAdapterName);
        }
        let mut j: usize = 0;
        while j < i
            invariant
                nv == name_views(names@),
                j <= i < names@.len(),
                forall|m: int| 0 <= m < j ==> nv[m] != nv[i as int],
                !is_blank(nv[i as int]),
                forall|k: int| 0 <= k < i ==> !name_issue_at(nv, k),
            decreases i - j,
        {
            if names[j] == names[i] {
                assert(nv[j as int] == nv[i as int]);
                assert(name_issue_at(nv, i as int));
                let dup = names[i].clone();
                assert(nv[i as int] == names@[i as int]@);
                assert(name_error(nv, i as int, ContractError::DuplicateAdapter(dup)));
                return Err(ContractError::DuplicateAdapter(dup));
            }
            j = j + 1;
        }
        i = i + 1;
    }
    Ok(())
}

/// Fans one request out to every configured store and keeps failures local
/// to their adapter. One unavailable store cannot suppress evidence from the
/// rest.
pub struct ErasureCoordinator {
    adapters: Vec<Box<dyn ErasureAdapter>>,
}

/// What holds of a store result the coordinator recorded: either a named
/// failure, or the adapter's own answer, accepted and then re-verified.
pub open spec fn settled(r: ResultView, request_id: Seq<char>, subject_digest: Seq<char>) -> bool {
    (exists|store: Seq<char>, kind: Seq<char>|
        r == #[trigger] failed_view(store, request_id, subject_digest, kind)) || (exists|
        answer: ResultView,
        verify: Result<bool, Seq<char>>,
    |
        validation_issue(answer.store, request_id, subject_digest, answer) is None && r
            == #[trigger] verified_view(answer, verify))
}

/// The names of `adapters`, in configuration order.
pub open spec fn names_of(adapters: Seq<Box<dyn ErasureAdapter>>) -> Seq<Seq<char>> {
    Seq::new(adapters.len(), |i: int| adapters[i].store_name()@)
}

/// The capabilities of `adapters`, in configuration order.
pub open spec fn capabilities_of(adapters: Seq<Box<dyn ErasureAdapter>>) -> Seq<StoreCapabilities> {
    Seq::new(adapters.len(), |i: int| adapters[i].store_capabilities())
}

impl ErasureCoordinator {
    /// The number of configured adapters.
    pub closed spec fn adapter_count(&self) -> nat {
        self.adapters@.len()
    }

    /// The configured store names, in configuration order.
    pub closed spec fn adapter_names(&self) -> Seq<Seq<char>> {
        names_of(self.adapters@)
    }

    /// The configured stores' capabilities, in configuration order.
    pub closed spec fn adapter_capabilities(&self) -> Seq<StoreCapabilities> {
        capabilities_of(self.adapters@)
    }

    /// Builds a coordinator over `adapters`, whose names must pass
    /// [`validate_adapter_names`].
    pub fn new(adapters: Vec<Box<dyn ErasureAdapter>>) -> (r: Result<Self, ContractError>)
        ensures
            (r matches Err(ContractError::NoAdapters)) <==> adapters@.len() == 0,
            adapters@.len() > 0 ==> (r is Ok || r matches Err(ContractError::EmptyAdapterName)
                || r matches Err(ContractError::DuplicateAdapter(_))),
            r is Ok <==> adapters@.len() > 0 && forall|k: int|
                0 <= k < adapters@.len() ==> !name_issue_at(names_of(adapters@), k),
            adapters@.len() > 0 ==> (r matches Err(e) ==> exists|k: int|
                0 <= k < adapters@.len() && name_issue_at(names_of(adapters@), k) && (forall|j: int|
                    0 <= j < k ==> !name_issue_at(names_of(adapters@), j)) && name_error(
                    names_of(adapters@),
                    k,
                    e,
                )),
            r matches Ok(c) ==> c.adapter_count() == adapters@.len() && c.adapter_names()
                == names_of(adapters@) && c.adapter_capabilities() == capabilities_of(adapters@),
    {
        let mut names: Vec<String> = Vec::new();
        let mut i: usize = 0;
        while i < adapters.len()
            invariant
                i <= adapters@.len(),
                names@.len() == i,
                forall|k: int| 0 <= k < i ==> #[trigger] names@[k]@ == adapters@[k].store_name()@,
            decreases adapters@.len() - i,
        {
            names.push(String::from_str(adapters[i].name()));
            i = i + 1;
        }
        assert(name_views(names@) =~= names_of(adapters@));
        if adapters.len() == 0 {
            return Err(ContractError::NoAdapters);
        }
        match validate_adapter_names(&names) {
            Ok(()) => Ok(ErasureCoordinator { adapters }),
            Err(e) => {
                proof {
                    let k = choose|k: int|
                        0 <= k < names@.len() && name_issue_at(name_views(names@), k) && (forall|
                            j: int,
                        | 0 <= j < k ==> !name_issue_at(name_views(names@), j)) && name_error(
                            name_views(names@),
                            k,
                            e,
                        );
                }
                Err(e)
            },
        }
    }

    /// Erases the subject from every configured store, in configuration
    /// order, re-verifying absence after each accepted answer.
    pub fn erase_subject(&mut self, request: &ErasureRequest) -> (r: StoreErasureReport)
        ensures
            final(self).adapter_count() == old(self).adapter_count(),
            r.request_id@ == request.request_id@,
            r.subject_digest@ == subject_commitment_spec(request.subject@),
            r.stores@.len() == old(self).adapter_count(),
            final(self).adapter_names() == old(self).adapter_names(),
            final(self).adapter_capabilities() == old(self).adapter_capabilities(),
            forall|i: int|
                0 <= i < r.stores@.len() ==> (#[trigger] views(r.stores@)[i]).store
                    == old(self).adapter_names()[i],
            forall|i: int|
                0 <= i < r.stores@.len() ==> settled(
                    #[trigger] views(r.stores@)[i],
                    request.request_id@,
                    r.subject_digest@,
                ),
            r.status == aggregate_status(views(r.stores@)),
            r.receipt@ == report_receipt(request.request_id@, r.subject_digest@, views(r.stores@)),
    {
        let expected_subject = request.subject_digest();
        let mut results: Vec<StoreErasureResult> = Vec::new();
        let mut i: usize = 0;
        let ghost n = self.adapters@.len();
        let ghost names0 = names_of(self.adapters@);
        let ghost caps0 = capabilities_of(self.adapters@);
        while i < self.adapters.len()
            invariant
                self.adapters@.len() == n,
                names_of(self.adapters@) == names0,
                capabilities_of(self.adapters@) == caps0,
                i <= n,
                results@.len() == i,
                forall|k: int| 0 <= k < i ==> (#[trigger] views(results@)[k]).store == names0[k],
                expected_subject@ == subject_commitment_spec(request.subject@),
                forall|k: int|
                    0 <= k < i ==> settled(
                        #[trigger] views(results@)[k],
                        request.request_id@,
                        expected_subject@,
                    ),
            decreases n - i,
        {
            let adapter = &mut self.adapters[i];
            let store = String::from_str(adapter.name());
            let result = match adapter.erase_subject(request) {
                Ok(answer) => match validate_result(
                    store.as_str(),
                    request,
                    expected_subject.as_str(),
                    &answer,
                ) {
                    Some(kind) => {
                        let f = failed_result(
                            store.as_str(),
                            request,
                            expected_subject.as_str(),
                            kind.as_str(),
                        );
                        assert(settled(f@, request.request_id@, expected_subject@));
                        f
                    },
                    None => {
                        let verify = adapter.verify_subject_absent(request.subject.as_str());
                        let v = apply_verification(answer, verify);
                        assert(answer@.store == store@);
                        assert(settled(v@, request.request_id@, expected_subject@));
                        v
                    },
                },
                Err(error) => {
                    let f = failed_result(
                        store.as_str(),
                        request,
                        expected_subject.as_str(),
                        error.kind.as_str(),
                    );
                    assert(settled(f@, request.request_id@, expected_subject@));
                    f
                },
            };
            let ghost before = views(results@);
            let ghost rv = result@;
            assert(settled(rv, request.request_id@, expected_subject@));
            assert(rv.store == names0[i as int]);
            results.push(result);
            assert forall|k: int| 0 <= k < i + 1 implies settled(
                #[trigger] views(results@)[k],
                request.request_id@,
                expected_subject@,
            ) && views(results@)[k].store == names0[k] by {
                if k < i {
                    assert(views(results@)[k] == before[k]);
                } else {
                    assert(views(results@)[k] == rv);
                }
            }
            assert(names_of(self.adapters@) =~= names0);
            assert(capabilities_of(self.adapters@) =~= caps0);
            i = i + 1;
        }
        build_report(request, expected_subject, results)
    }

    /// The configured store names and lifecycle capabilities, for policy
    /// checks, diagnostics, and control-plane presentation.
    pub fn stores(&self) -> (r: Vec<StoreDescriptor>)
        ensures
            r@.len() == self.adapter_count(),
            forall|i: int|
                0 <= i < r@.len() ==> (#[trigger] r@[i]).name@ == self.adapter_names()[i]
                    && r@[i].capabilities == self.adapter_capabilities()[i],
    {
        let mut out: Vec<StoreDescriptor> = Vec::new();
        let mut i: usize = 0;
        while i < self.adapters.len()
            invariant
                i <= self.adapters@.len(),
                out@.len() == i,
                forall|k: int|
                    0 <= k < i ==> (#[trigger] out@[k]).name@ == self.adapter_names()[k]
                        && out@[k].capabilities == self.adapter_capabilities()[k],
            decreases self.adapters@.len() - i,
        {
            let adapter = &self.adapters[i];
            out.push(
                StoreDescriptor {
                    name: String::from_str(adapter.name()),
                    capabilities: adapter.capabilities(),
                },
            );
            i = i + 1;
        }
        out
    }
}

// ---------------------------------------------------------------------------
// The receipt does not depend on the order of the stores
// ---------------------------------------------------------------------------

/// Results with different store names are ordered one way exactly.
proof fn lemma_store_order(a: ResultView, b: ResultView)
    ensures
        !(store_before(a, b) && store_before(b, a)),
        !store_before(a, a),
        a.store != b.store ==> store_before(a, b) || store_before(b, a),
        forall|c: ResultView| store_before(a, b) && #[trigger] store_before(b, c) ==> store_before(a, c),
{
    crate::textmap::lemma_key_lt_irreflexive(a.store);
    if store_before(a, b) && store_before(b, a) {
        crate::textmap::lemma_key_lt_transitive(a.store, b.store, a.store);
    }
    if a.store != b.store {
        crate::textmap::lemma_key_lt_total(a.store, b.store);
    }
    assert forall|c: ResultView| store_before(a, b) && #[trigger] store_before(b, c) implies store_before(
        a,
        c,
    ) by {
        crate::textmap::lemma_key_lt_transitive(a.store, b.store, c.store);
    }
}

proof fn lemma_insert_front(x: ResultView, s: Seq<ResultView>)
    ensures
        (seq![x] + s)[0] == x,
        (seq![x] + s).drop_first() == s,
        (seq![x] + s).len() > 0,
{
    assert((seq![x] + s).drop_first() =~= s);
}

/// Two insertions of results with different store names commute.
proof fn lemma_insert_commute(t: Seq<ResultView>, a: ResultView, b: ResultView)
    requires
        a.store != b.store,
    ensures
        insert_by_store(insert_by_store(t, a), b) == insert_by_store(insert_by_store(t, b), a),
    decreases t.len(),
{
    lemma_store_order(a, b);
    lemma_store_order(b, a);
    lemma_insert_front(a, t);
    lemma_insert_front(b, t);
    if t.len() == 0 {
        lemma_insert_front(a, seq![b]);
        lemma_insert_front(b, seq![a]);
        lemma_insert_front(a, Seq::empty());
        lemma_insert_front(b, Seq::empty());
        assert(insert_by_store(Seq::<ResultView>::empty(), a) == seq![a]);
        assert(insert_by_store(Seq::<ResultView>::empty(), b) == seq![b]);
        assert(seq![a] =~= seq![a] + Seq::<ResultView>::empty());
        assert(seq![b] =~= seq![b] + Seq::<ResultView>::empty());
        if store_before(a, b) {
            assert(insert_by_store(seq![a], b) == seq![a] + insert_by_store(Seq::empty(), b));
            assert(insert_by_store(seq![b], a) == seq![a] + seq![b]);
            assert(seq![a] + seq![b] =~= seq![a] + insert_by_store(Seq::<ResultView>::empty(), b));
        } else {
            assert(insert_by_store(seq![a], b) == seq![b] + seq![a]);
            assert(insert_by_store(seq![b], a) == seq![b] + insert_by_store(Seq::empty(), a));
            assert(seq![b] + seq![a] =~= seq![b] + insert_by_store(Seq::<ResultView>::empty(), a));
        }
    } else {
        let t0 = t[0];
        let rest = t.drop_first();
        lemma_store_order(b, t0);
        lemma_store_order(a, t0);
        let ta = seq![a] + t;
        let tb = seq![b] + t;
        lemma_insert_front(a, tb);
        lemma_insert_front(b, ta);
        lemma_insert_front(t0, insert_by_store(rest, a));
        lemma_insert_front(t0, insert_by_store(rest, b));
        if store_before(a, t0) && store_before(b, t0) {
            if store_before(a, b) {
                assert(insert_by_store(ta, b) == seq![a] + insert_by_store(t, b));
                assert(insert_by_store(tb, a) == seq![a] + tb);
            } else {
                assert(insert_by_store(ta, b) == seq![b] + ta);
                assert(insert_by_store(tb, a) == seq![b] + insert_by_store(t, a));
            }
        } else if store_before(a, t0) {
            let rb = insert_by_store(rest, b);
            assert(insert_by_store(t, b) == seq![t0] + rb);
            assert(insert_by_store(ta, b) == seq![a] + insert_by_store(t, b));
            lemma_insert_front(a, seq![t0] + rb);
        } else if store_before(b, t0) {
            let ra = insert_by_store(rest, a);
            assert(insert_by_store(t, a) == seq![t0] + ra);
            assert(insert_by_store(tb, a) == seq![b] + insert_by_store(t, a));
            lemma_insert_front(b, seq![t0] + ra);
        } else {
            lemma_insert_commute(rest, a, b);
        }
    }
}

/// `t` with each of `q` inserted in turn.
pub open spec fn insert_all(t: Seq<ResultView>, q: Seq<ResultView>) -> Seq<ResultView>
    decreases q.len(),
{
    if q.len() == 0 {
        t
    } else {
        insert_by_store(insert_all(t, q.drop_last()), q.last())
    }
}

proof fn lemma_insert_all_commute(t: Seq<ResultView>, q: Seq<ResultView>, x: ResultView)
    requires
        forall|j: int| 0 <= j < q.len() ==> (#[trigger] q[j]).store != x.store,
    ensures
        insert_all(insert_by_store(t, x), q) == insert_by_store(insert_all(t, q), x),
    decreases q.len(),
{
    if q.len() > 0 {
        let pre = q.drop_last();
        assert forall|j: int| 0 <= j < pre.len() implies (#[trigger] pre[j]).store != x.store by {
            assert(pre[j] == q[j]);
        }
        lemma_insert_all_commute(t, pre, x);
        assert(q.last() == q[q.len() - 1]);
        lemma_insert_commute(insert_all(t, pre), x, q.last());
    }
}

proof fn lemma_sort_concat(p: Seq<ResultView>, q: Seq<ResultView>)
    ensures
        sort_by_store(p + q) == insert_all(sort_by_store(p), q),
    decreases q.len(),
{
    if q.len() == 0 {
        assert(p + q =~= p);
    } else {
        lemma_sort_concat(p, q.drop_last());
        assert((p + q).drop_last() =~= p + q.drop_last());
        assert((p + q).last() == q.last());
    }
}

/// Taking one result out and inserting it last sorts the same, when no
/// later result shares its store name.
proof fn lemma_move_to_end(s: Seq<ResultView>, k: int)
    requires
        0 <= k < s.len(),
        forall|j: int| k < j < s.len() ==> (#[trigger] s[j]).store != s[k].store,
    ensures
        sort_by_store(s) == insert_by_store(sort_by_store(s.remove(k)), s[k]),
{
    let p = s.take(k);
    let q = s.skip(k + 1);
    let x = s[k];
    assert(s =~= p.push(x) + q);
    assert(s.remove(k) =~= p + q);
    assert forall|j: int| 0 <= j < q.len() implies (#[trigger] q[j]).store != x.store by {
        assert(q[j] == s[k + 1 + j]);
    }
    lemma_sort_concat(p.push(x), q);
    assert(p.push(x).drop_last() =~= p);
    lemma_insert_all_commute(sort_by_store(p), q, x);
    lemma_sort_concat(p, q);
}

proof fn lemma_completed_concat(a: Seq<ResultView>, b: Seq<ResultView>)
    ensures
        completed_count(a + b) == completed_count(a) + completed_count(b),
    decreases b.len(),
{
    if b.len() == 0 {
        assert(a + b =~= a);
    } else {
        lemma_completed_concat(a, b.drop_last());
        assert((a + b).drop_last() =~= a + b.drop_last());
        assert((a + b).last() == b.last());
    }
}

proof fn lemma_completed_insert(t: Seq<ResultView>, x: ResultView)
    ensures
        completed_count(insert_by_store(t, x)) == completed_count(t) + completed_count(seq![x]),
        insert_by_store(t, x).len() == t.len() + 1,
    decreases t.len(),
{
    if t.len() == 0 {
    } else if store_before(x, t[0]) {
        lemma_completed_concat(seq![x], t);
    } else {
        lemma_completed_insert(t.drop_first(), x);
        lemma_completed_concat(seq![t[0]], insert_by_store(t.drop_first(), x));
        lemma_completed_concat(seq![t[0]], t.drop_first());
        assert(seq![t[0]] + t.drop_first() =~= t);
        lemma_completed_concat(seq![t[0]], seq![x]);
    }
}

proof fn lemma_completed_sort(s: Seq<ResultView>)
    ensures
        completed_count(sort_by_store(s)) == completed_count(s),
        sort_by_store(s).len() == s.len(),
    decreases s.len(),
{
    if s.len() > 0 {
        lemma_completed_sort(s.drop_last());
        lemma_completed_insert(sort_by_store(s.drop_last()), s.last());
        lemma_completed_concat(s.drop_last(), seq![s.last()]);
        assert(s.drop_last() + seq![s.last()] =~= s);
    }
}

/// Reorderings of results with distinct store names sort the same.
proof fn lemma_permutation_sorts_alike(s1: Seq<ResultView>, s2: Seq<ResultView>)
    requires
        s1.to_multiset() == s2.to_multiset(),
        forall|i: int, j: int| 0 <= i < j < s1.len() ==> (#[trigger] s1[i]).store != (#[trigger] s1[j]).store,
    ensures
        sort_by_store(s1) == sort_by_store(s2),
    decreases s1.len(),
{
    broadcast use vstd::seq_lib::group_to_multiset_ensures;
    broadcast use vstd::multiset::group_multiset_axioms;

    if s1.len() == 0 {
        vstd::seq_lib::to_multiset_len(s1);
        vstd::seq_lib::to_multiset_len(s2);
        assert(s2.len() == 0);
        assert(s1 =~= s2);
    } else {
        let x = s1.last();
        let pre = s1.drop_last();
        assert(pre.push(x) =~= s1);
        assert(s1.to_multiset() == pre.to_multiset().insert(x));
        assert(s1.to_multiset().count(x) > 0);
        assert(s2.contains(x));
        let k = choose|k: int| 0 <= k < s2.len() && s2[k] == x;
        let s2r = s2.remove(k);
        assert(s2r.to_multiset() == s2.to_multiset().remove(x));
        assert(pre.to_multiset() =~= s1.to_multiset().remove(x));
        assert forall|i: int, j: int| 0 <= i < j < pre.len() implies (#[trigger] pre[i]).store != (
        #[trigger] pre[j]).store by {
            assert(pre[i] == s1[i]);
            assert(pre[j] == s1[j]);
        }
        lemma_permutation_sorts_alike(pre, s2r);
        assert forall|j: int| k < j < s2.len() implies (#[trigger] s2[j]).store != s2[k].store by {
            assert(s2r[j - 1] == s2[j]);
            assert(s2r.contains(s2[j]));
            assert(s2r.to_multiset().count(s2[j]) > 0);
            assert(pre.contains(s2[j]));
            let m = choose|m: int| 0 <= m < pre.len() && pre[m] == s2[j];
            assert(s1[m] == pre[m]);
            assert(s1[s1.len() - 1] == x);
        }
        lemma_move_to_end(s2, k);
    }
}

/// Adapter order cannot change the aggregate receipt: any reordering of
/// store results with distinct store names gives the same status and the
/// same receipt.
pub proof fn law_receipt_ignores_adapter_order(
    request_id: Seq<char>,
    subject_digest: Seq<char>,
    s1: Seq<ResultView>,
    s2: Seq<ResultView>,
)
    requires
        s1.to_multiset() == s2.to_multiset(),
        forall|i: int, j: int| 0 <= i < j < s1.len() ==> (#[trigger] s1[i]).store != (#[trigger] s1[j]).store,
    ensures
        aggregate_status(s1) == aggregate_status(s2),
        report_receipt(request_id, subject_digest, s1) == report_receipt(
            request_id,
            subject_digest,
            s2,
        ),
{
    lemma_permutation_sorts_alike(s1, s2);
    lemma_completed_sort(s1);
    lemma_completed_sort(s2);
}

proof fn lemma_completed_extremes(s: Seq<ResultView>)
    ensures
        completed_count(s) <= s.len(),
        completed_count(s) == s.len() <==> forall|i: int|
            0 <= i < s.len() ==> result_complete(#[trigger] s[i]),
        completed_count(s) == 0 <==> forall|i: int|
            0 <= i < s.len() ==> !result_complete(#[trigger] s[i]),
    decreases s.len(),
{
    if s.len() > 0 {
        let pre = s.drop_last();
        lemma_completed_extremes(pre);
        assert(s.last() == s[s.len() - 1]);
        if forall|i: int| 0 <= i < s.len() ==> result_complete(#[trigger] s[i]) {
            assert forall|i: int| 0 <= i < pre.len() implies result_complete(#[trigger] pre[i]) by {
                assert(pre[i] == s[i]);
            }
        }
        if completed_count(s) == s.len() {
            assert forall|i: int| 0 <= i < s.len() implies result_complete(#[trigger] s[i]) by {
                if i < pre.len() {
                    assert(pre[i] == s[i]);
                }
            }
        }
        if forall|i: int| 0 <= i < s.len() ==> !result_complete(#[trigger] s[i]) {
            assert forall|i: int| 0 <= i < pre.len() implies !result_complete(#[trigger] pre[i]) by {
                assert(pre[i] == s[i]);
            }
        }
        if completed_count(s) == 0 {
            assert forall|i: int| 0 <= i < s.len() implies !result_complete(#[trigger] s[i]) by {
                if i < pre.len() {
                    assert(pre[i] == s[i]);
                }
            }
        }
    }
}

/// A request is complete exactly when every store verified completion, and
/// failed exactly when no store did.
pub proof fn law_status_counts_every_store(s: Seq<ResultView>)
    requires
        s.len() > 0,
    ensures
        aggregate_status(s) == ErasureReportStatus::Complete <==> forall|i: int|
            0 <= i < s.len() ==> result_complete(#[trigger] s[i]),
        aggregate_status(s) == ErasureReportStatus::Failed <==> forall|i: int|
            0 <= i < s.len() ==> !result_complete(#[trigger] s[i]),
{
    lemma_completed_extremes(s);
}

proof fn lemma_counts_at_most_one<A>(s: Seq<A>)
    requires
        s.no_duplicates(),
    ensures
        forall|x: A| #[trigger] s.to_multiset().count(x) == if s.contains(x) {
            1nat
        } else {
            0nat
        },
{
    broadcast use vstd::seq_lib::group_to_multiset_ensures;

    s.lemma_multiset_has_no_duplicates();
}

/// Adapter order cannot change a coordinator's receipt: two runs over the
/// same uniquely named stores, configured in two orders, in which every
/// store gave the same record, report the same status and the same receipt.
/// A coordinator's names are unique (`new` refuses repeats), and record `i`
/// of `erase_subject` carries the name of adapter `i`.
pub proof fn law_coordinator_receipt_ignores_adapter_order(
    request_id: Seq<char>,
    subject_digest: Seq<char>,
    names1: Seq<Seq<char>>,
    names2: Seq<Seq<char>>,
    s1: Seq<ResultView>,
    s2: Seq<ResultView>,
)
    requires
        names1.to_multiset() == names2.to_multiset(),
        names1.no_duplicates(),
        s1.len() == names1.len(),
        s2.len() == names2.len(),
        forall|i: int| 0 <= i < s1.len() ==> (#[trigger] s1[i]).store == names1[i],
        forall|j: int| 0 <= j < s2.len() ==> (#[trigger] s2[j]).store == names2[j],
        forall|i: int, j: int|
            0 <= i < s1.len() && 0 <= j < s2.len() && names1[i] == names2[j] ==> #[trigger] s1[i]
                == #[trigger] s2[j],
    ensures
        aggregate_status(s1) == aggregate_status(s2),
        report_receipt(request_id, subject_digest, s1) == report_receipt(
            request_id,
            subject_digest,
            s2,
        ),
{
    broadcast use vstd::seq_lib::group_to_multiset_ensures;

    lemma_counts_at_most_one(names1);
    assert forall|x: Seq<char>| names2.to_multiset().contains(x) implies names2.to_multiset().count(
        x,
    ) == 1 by {
        assert(names1.to_multiset().count(x) == names2.to_multiset().count(x));
    }
    names2.lemma_multiset_has_no_duplicates_conv();
    assert(s1.no_duplicates()) by {
        assert forall|i: int, j: int| 0 <= i < s1.len() && 0 <= j < s1.len() && i != j implies s1[i]
            != s1[j] by {
            assert(s1[i].store == names1[i] && s1[j].store == names1[j]);
        }
    }
    assert(s2.no_duplicates()) by {
        assert forall|i: int, j: int| 0 <= i < s2.len() && 0 <= j < s2.len() && i != j implies s2[i]
            != s2[j] by {
            assert(s2[i].store == names2[i] && s2[j].store == names2[j]);
        }
    }
    lemma_counts_at_most_one(s1);
    lemma_counts_at_most_one(s2);
    assert forall|x: ResultView| #[trigger] s1.contains(x) <==> s2.contains(x) by {
        if s1.contains(x) {
            let i = choose|i: int| 0 <= i < s1.len() && s1[i] == x;
            assert(names1.contains(names1[i]));
            assert(names1.to_multiset().count(names1[i]) > 0);
            assert(names2.contains(names1[i]));
            let j = choose|j: int| 0 <= j < names2.len() && names2[j] == names1[i];
            assert(s1[i] == s2[j]);
            assert(s2.contains(x));
        }
        if s2.contains(x) {
            let j = choose|j: int| 0 <= j < s2.len() && s2[j] == x;
            assert(names2.contains(names2[j]));
            assert(names2.to_multiset().count(names2[j]) > 0);
            assert(names1.contains(names2[j]));
            let i = choose|i: int| 0 <= i < names1.len() && names1[i] == names2[j];
            assert(s1[i] == s2[j]);
            assert(s1.contains(x));
        }
    }
    assert(s1.to_multiset() =~= s2.to_multiset()) by {
        assert forall|x: ResultView| #[trigger] s1.to_multiset().count(x) == s2.to_multiset().count(
            x,
        ) by {
            assert(s1.contains(x) <==> s2.contains(x));
        }
    }
    assert forall|i: int, j: int| 0 <= i < j < s1.len() implies (#[trigger] s1[i]).store
        != (#[trigger] s1[j]).store by {}
    law_receipt_ignores_adapter_order(request_id, subject_digest, s1, s2);
}

} // verus!
