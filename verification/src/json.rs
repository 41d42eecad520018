//! The strict interior: one JSON value, one meaning, one strict parser. It
//! refuses everything non-standard on purpose; it is the measuring stick the
//! repair passes are judged against.

use vstd::prelude::*;

use crate::number::{float_text_value, num_text, NumView, Number};
use crate::text::{debug_str, debug_text, hex_digits};
use crate::textmap::{has_key, sorted_insert, TextMap};
use vstd::utf8::{encode_scalar, encode_utf8};

verus! {

/// A JSON value as plain values.
pub enum JsonView {
    Null,
    Bool(bool),
    Num(NumView),
    Str(Seq<char>),
    Arr(Seq<JsonView>),
    Obj(Seq<(Seq<char>, JsonView)>),
}

/// Every object within `v` keeps its keys in increasing byte order, as
/// every parsed or built value does.
pub open spec fn well_keyed(v: JsonView) -> bool
    decreases v, 1nat,
{
    match v {
        JsonView::Arr(items) => items_well_keyed(items),
        JsonView::Obj(members) => crate::textmap::keys_increasing(members) && members_well_keyed(
            members,
        ),
        _ => true,
    }
}

/// Every item is [`well_keyed`].
pub open spec fn items_well_keyed(items: Seq<JsonView>) -> bool
    decreases items, 0nat,
{
    if items.len() == 0 {
        true
    } else {
        items_well_keyed(items.drop_last()) && well_keyed(items.last())
    }
}

/// Every member's value is [`well_keyed`].
pub open spec fn members_well_keyed(members: Seq<(Seq<char>, JsonView)>) -> bool
    decreases members, 0nat,
{
    if members.len() == 0 {
        true
    } else {
        members_well_keyed(members.drop_last()) && well_keyed(members.last().1)
    }
}

pub proof fn lemma_items_well_keyed(items: Seq<JsonView>)
    requires
        items_well_keyed(items),
    ensures
        forall|i: int| 0 <= i < items.len() ==> #[trigger] well_keyed(items[i]),
    decreases items.len(),
{
    if items.len() > 0 {
        lemma_items_well_keyed(items.drop_last());
        assert forall|i: int| 0 <= i < items.len() implies #[trigger] well_keyed(items[i]) by {
            if i < items.len() - 1 {
                assert(items.drop_last()[i] == items[i]);
            }
        }
    }
}

pub proof fn lemma_members_well_keyed(members: Seq<(Seq<char>, JsonView)>)
    requires
        members_well_keyed(members),
    ensures
        forall|i: int| 0 <= i < members.len() ==> #[trigger] well_keyed(members[i].1),
    decreases members.len(),
{
    if members.len() > 0 {
        lemma_members_well_keyed(members.drop_last());
        assert forall|i: int| 0 <= i < members.len() implies #[trigger] well_keyed(members[i].1) by {
            if i < members.len() - 1 {
                assert(members.drop_last()[i] == members[i]);
            }
        }
    }
}

pub proof fn lemma_items_well_keyed_from(items: Seq<JsonView>)
    requires
        forall|i: int| 0 <= i < items.len() ==> #[trigger] well_keyed(items[i]),
    ensures
        items_well_keyed(items),
    decreases items.len(),
{
    if items.len() > 0 {
        let pre = items.drop_last();
        assert forall|i: int| 0 <= i < pre.len() implies #[trigger] well_keyed(pre[i]) by {
            assert(pre[i] == items[i]);
        }
        lemma_items_well_keyed_from(pre);
        assert(well_keyed(items[items.len() - 1]));
    }
}

pub proof fn lemma_members_well_keyed_from(members: Seq<(Seq<char>, JsonView)>)
    requires
        forall|i: int| 0 <= i < members.len() ==> #[trigger] well_keyed(members[i].1),
    ensures
        members_well_keyed(members),
    decreases members.len(),
{
    if members.len() > 0 {
        let pre = members.drop_last();
        assert forall|i: int| 0 <= i < pre.len() implies #[trigger] well_keyed(pre[i].1) by {
            assert(pre[i] == members[i]);
        }
        lemma_members_well_keyed_from(pre);
        assert(well_keyed(members[members.len() - 1].1));
    }
}

/// A JSON value. Object keys are kept in byte order, so output is
/// deterministic.
#[derive(Debug, PartialEq)]
pub enum Value {
    Null,
    Bool(bool),
    Num(Number),
    Str(String),
    Arr(Vec<Value>),
    Obj(TextMap<Value>),
}

pub closed spec fn json_view(v: Value) -> JsonView
    decreases v,
{
    match v {
        Value::Null => JsonView::Null,
        Value::Bool(b) => JsonView::Bool(b),
        Value::Num(n) => JsonView::Num(n@),
        Value::Str(s) => JsonView::Str(s@),
        Value::Arr(items) => JsonView::Arr(
            Seq::new(
                items@.len(),
                |i: int|
                    if 0 <= i < items@.len() {
                        json_view(items@[i])
                    } else {
                        JsonView::Null
                    },
            ),
        ),
        Value::Obj(m) => JsonView::Obj(
            Seq::new(
                m.entries@.len(),
                |i: int|
                    if 0 <= i < m.entries@.len() {
                        (m.entries@[i].0@, json_view(m.entries@[i].1))
                    } else {
                        (Seq::empty(), JsonView::Null)
                    },
            ),
        ),
    }
}

impl View for Value {
    type V = JsonView;

    open spec fn view(&self) -> JsonView {
        json_view(*self)
    }
}

pub open spec fn item_views(items: Seq<Value>) -> Seq<JsonView> {
    Seq::new(items.len(), |i: int| json_view(items[i]))
}

pub open spec fn member_views(entries: Seq<(Seq<char>, Value)>) -> Seq<(Seq<char>, JsonView)> {
    Seq::new(entries.len(), |i: int| (entries[i].0, json_view(entries[i].1)))
}

pub broadcast proof fn lemma_view_scalar(v: Value)
    ensures
        #![trigger json_view(v)]
        v matches Value::Null ==> json_view(v) == JsonView::Null,
        v matches Value::Bool(b) ==> json_view(v) == JsonView::Bool(b),
        v matches Value::Num(n) ==> json_view(v) == JsonView::Num(n@),
        v matches Value::Str(s) ==> json_view(v) == JsonView::Str(s@),
        v matches Value::Arr(_) ==> json_view(v) is Arr,
        v matches Value::Obj(_) ==> json_view(v) is Obj,
{
}

pub broadcast proof fn lemma_view_arr(items: Vec<Value>)
    ensures
        #[trigger] json_view(Value::Arr(items)) == JsonView::Arr(item_views(items@)),
{
    let a = json_view(Value::Arr(items));
    assert(a->Arr_0 =~= item_views(items@));
}

pub broadcast proof fn lemma_view_obj(m: TextMap<Value>)
    ensures
        #[trigger] json_view(Value::Obj(m)) == JsonView::Obj(member_views(m.entries())),
{
    m.lemma_entries_def();
    let a = json_view(Value::Obj(m));
    assert(a->Obj_0 =~= member_views(m.entries()));
}

pub broadcast group group_json_view {
    lemma_view_scalar,
    lemma_view_arr,
    lemma_view_obj,
}

/// The name of a value's type.
pub open spec fn kind_name(v: JsonView) -> Seq<char> {
    match v {
        JsonView::Null => "null"@,
        JsonView::Bool(_) => "bool"@,
        JsonView::Num(_) => "number"@,
        JsonView::Str(_) => "string"@,
        JsonView::Arr(_) => "array"@,
        JsonView::Obj(_) => "object"@,
    }
}

impl Value {
    pub fn type_label(&self) -> (r: &'static str)
        ensures
            r@ == kind_name(self@),
    {
        proof {
            broadcast use group_json_view;

        }
        match self {
            Value::Null => "null",
            Value::Bool(_) => "bool",
            Value::Num(_) => "number",
            Value::Str(_) => "string",
            Value::Arr(_) => "array",
            Value::Obj(_) => "object",
        }
    }

    pub fn as_obj(&self) -> (r: Option<&TextMap<Value>>)
        ensures
            match *self {
                Value::Obj(m) => r == Some(&m),
                _ => r is None,
            },
    {
        match self {
            Value::Obj(m) => Some(m),
            _ => None,
        }
    }
}

/// A parse failure: byte offset and message. The strict parser does not
/// repair, it reports.
#[derive(Debug, Clone, PartialEq, Eq)]
pub struct ParseError {
    pub at: usize,
    pub msg: String,
}

// ---------------------------------------------------------------------------
// The grammar, as the parser reads it
// ---------------------------------------------------------------------------

/// A parse step's outcome: a value and the character position after it, or
/// the byte offset of the failure and its message.
pub type Step<T> = Result<(T, int), (int, Seq<char>)>;

/// The byte length of the UTF-8 encoding of a text.
pub open spec fn utf8_len(s: Seq<char>) -> nat {
    vstd::utf8::encode_utf8(s).len()
}

/// The byte offset of character position `p`.
pub open spec fn byte_at(s: Seq<char>, p: int) -> int {
    utf8_len(s.take(p)) as int
}

pub open spec fn is_json_ws(c: char) -> bool {
    c == ' ' || c == '\t' || c == '\n' || c == '\r'
}

/// A control character, which a string may hold only escaped.
pub open spec fn is_raw_control(c: char) -> bool {
    c < ' '
}

pub open spec fn is_digit(c: char) -> bool {
    '0' <= c && c <= '9'
}

/// The position after the white space starting at `i`.
pub open spec fn skip_ws(s: Seq<char>, i: int) -> int
    decreases s.len() - i,
{
    if 0 <= i < s.len() && is_json_ws(s[i]) {
        skip_ws(s, i + 1)
    } else {
        i
    }
}

/// The position after the digits starting at `i`.
pub open spec fn skip_digits(s: Seq<char>, i: int) -> int
    decreases s.len() - i,
{
    if 0 <= i < s.len() && is_digit(s[i]) {
        skip_digits(s, i + 1)
    } else {
        i
    }
}

pub open spec fn at_char(s: Seq<char>, i: int, c: char) -> bool {
    0 <= i < s.len() && s[i] == c
}

/// A literal at `i`.
pub open spec fn p_literal(s: Seq<char>, i: int, lit: Seq<char>, v: JsonView) -> Step<JsonView> {
    if i + lit.len() <= s.len() && s.subrange(i, i + lit.len()) == lit {
        Ok((v, i + lit.len()))
    } else {
        Err((byte_at(s, i), "expected `"@ + lit + "`"@))
    }
}

/// The end of a number's integer part starting at `j0`, or where it fails.
pub open spec fn int_part_end(s: Seq<char>, j0: int) -> Result<int, int> {
    if at_char(s, j0, '0') {
        if 0 <= j0 + 1 < s.len() && is_digit(s[j0 + 1]) {
            Err(j0 + 1)
        } else {
            Ok(j0 + 1)
        }
    } else if 0 <= j0 < s.len() && '1' <= s[j0] <= '9' {
        Ok(skip_digits(s, j0))
    } else {
        Err(j0)
    }
}

/// The end of a number's optional fraction starting at `j1`, or where it
/// fails.
pub open spec fn frac_part_end(s: Seq<char>, j1: int) -> Result<int, int> {
    if at_char(s, j1, '.') {
        if 0 <= j1 + 1 < s.len() && is_digit(s[j1 + 1]) {
            Ok(skip_digits(s, j1 + 1))
        } else {
            Err(j1 + 1)
        }
    } else {
        Ok(j1)
    }
}

/// The end of a number's optional exponent starting at `j2`, or where it
/// fails.
pub open spec fn exp_part_end(s: Seq<char>, j2: int) -> Result<int, int> {
    if at_char(s, j2, 'e') || at_char(s, j2, 'E') {
        let k = if at_char(s, j2 + 1, '+') || at_char(s, j2 + 1, '-') {
            j2 + 2
        } else {
            j2 + 1
        };
        if 0 <= k < s.len() && is_digit(s[k]) {
            Ok(skip_digits(s, k))
        } else {
            Err(k)
        }
    } else {
        Ok(j2)
    }
}

/// A number at `i`: JSON's grammar, then the value `f64` parsing gives.
pub open spec fn p_number(s: Seq<char>, i: int) -> Step<JsonView> {
    let j0 = if at_char(s, i, '-') {
        i + 1
    } else {
        i
    };
    match int_part_end(s, j0) {
        Err(p) => if p == j0 {
            Err((byte_at(s, p), "expected digit in number"@))
        } else {
            Err((byte_at(s, p), "leading zero in number"@))
        },
        Ok(j1) => match frac_part_end(s, j1) {
            Err(p) => Err((byte_at(s, p), "expected digit after decimal point"@)),
            Ok(j2) => match exp_part_end(s, j2) {
                Err(p) => Err((byte_at(s, p), "expected digit in exponent"@)),
                Ok(j3) => {
                    let text = s.subrange(i, j3);
                    match float_text_value(text) {
                        Some(n) => Ok((JsonView::Num(n), j3)),
                        None => Err(
                            (byte_at(s, i), "invalid or non-finite number `"@ + text + "`"@),
                        ),
                    }
                },
            },
        },
    }
}

pub open spec fn hex_val(c: char) -> int {
    if '0' <= c <= '9' {
        c as int - '0' as int
    } else if 'a' <= c <= 'f' {
        c as int - 'a' as int + 10
    } else {
        c as int - 'A' as int + 10
    }
}

pub open spec fn is_hex(c: char) -> bool {
    ('0' <= c <= '9') || ('a' <= c <= 'f') || ('A' <= c <= 'F')
}

/// Hex digits `k..4` of a `\\u` escape whose digits start at `i`, with the
/// value `acc` of the digits before them.
pub open spec fn p_hex_digits(s: Seq<char>, i: int, k: int, acc: int) -> Step<u32>
    decreases 4 - k,
{
    if k >= 4 {
        Ok((acc as u32, i + 4))
    } else if i + k >= s.len() {
        Err((byte_at(s, i + k), "truncated \\u escape"@))
    } else if !is_hex(s[i + k]) {
        Err((byte_at(s, i + k), "invalid hex digit in \\u escape"@))
    } else {
        p_hex_digits(s, i, k + 1, acc * 16 + hex_val(s[i + k]))
    }
}

/// Four hex digits at `i`, as a code unit.
pub open spec fn p_hex4(s: Seq<char>, i: int) -> Step<u32> {
    p_hex_digits(s, i, 0, 0)
}

/// The character a simple escape stands for.
pub open spec fn simple_escape(c: char) -> Option<char> {
    if c == '"' {
        Some('"')
    } else if c == '\\' {
        Some('\\')
    } else if c == '/' {
        Some('/')
    } else if c == 'b' {
        Some('\x08')
    } else if c == 'f' {
        Some('\x0c')
    } else if c == 'n' {
        Some('\n')
    } else if c == 'r' {
        Some('\r')
    } else if c == 't' {
        Some('\t')
    } else {
        None
    }
}

/// A `\u` escape whose four digits were read at `j2`: one character, or a
/// surrogate pair combined into one, and the position after it.
pub open spec fn p_unicode(s: Seq<char>, j2: int) -> Step<char> {
    match p_hex4(s, j2) {
        Err(e) => Err(e),
        Ok((cp, j3)) => if 0xD800 <= cp <= 0xDBFF {
            if at_char(s, j3, '\\') && at_char(s, j3 + 1, 'u') {
                match p_hex4(s, j3 + 2) {
                    Err(e) => Err(e),
                    Ok((lo, j5)) => if !(0xDC00 <= lo <= 0xDFFF) {
                        Err((byte_at(s, j5), "high surrogate is not followed by a low surrogate"@))
                    } else {
                        Ok(((0x10000 + (cp - 0xD800) * 1024 + (lo - 0xDC00)) as char, j5))
                    },
                }
            } else {
                Err((byte_at(s, j3), "unpaired high surrogate"@))
            }
        } else if 0xDC00 <= cp <= 0xDFFF {
            Err((byte_at(s, j3), "unpaired low surrogate"@))
        } else {
            Ok((cp as char, j3))
        },
    }
}

/// The rest of a string whose opening quote came before `j`, with the
/// characters read so far.
pub open spec fn p_string_rest(s: Seq<char>, j: int, out: Seq<char>) -> Step<Seq<char>>
    decreases s.len() - j,
{
    if j < 0 || j >= s.len() {
        Err((byte_at(s, j), "unterminated string"@))
    } else if s[j] == '"' {
        Ok((out, j + 1))
    } else if s[j] == '\\' {
        if j + 1 >= s.len() {
            Err((byte_at(s, j + 1), "unterminated escape"@))
        } else {
            let esc = s[j + 1];
            match simple_escape(esc) {
                Some(c) => p_string_rest(s, j + 2, out.push(c)),
                None => if esc == 'u' {
                    match p_unicode(s, j + 2) {
                        Err(e) => Err(e),
                        Ok((c, k)) => if j < k <= s.len() {
                            p_string_rest(s, k, out.push(c))
                        } else {
                            Err((k, Seq::empty()))
                        },
                    }
                } else {
                    Err((byte_at(s, j + 1) + 1, "invalid escape"@))
                },
            }
        }
    } else if is_raw_control(s[j]) {
        Err((byte_at(s, j), "raw control character in string"@))
    } else {
        p_string_rest(s, j + 1, out.push(s[j]))
    }
}

/// A string whose opening quote is at `i`.
pub open spec fn p_string(s: Seq<char>, i: int) -> Step<Seq<char>> {
    p_string_rest(s, i + 1, Seq::empty())
}

/// A value at `i`.
pub open spec fn p_value(s: Seq<char>, i: int) -> Step<JsonView>
    decreases s.len() - i, 1nat,
{
    if i < 0 || i >= s.len() {
        Err((byte_at(s, i), "unexpected end of input"@))
    } else {
        let c = s[i];
        if c == 'n' {
            p_literal(s, i, "null"@, JsonView::Null)
        } else if c == 't' {
            p_literal(s, i, "true"@, JsonView::Bool(true))
        } else if c == 'f' {
            p_literal(s, i, "false"@, JsonView::Bool(false))
        } else if c == '"' {
            match p_string(s, i) {
                Ok((t, j)) => Ok((JsonView::Str(t), j)),
                Err(e) => Err(e),
            }
        } else if c == '{' {
            p_object(s, i)
        } else if c == '[' {
            p_array(s, i)
        } else if c == '-' || is_digit(c) {
            p_number(s, i)
        } else {
            Err((byte_at(s, i), "unexpected character"@))
        }
    }
}

/// An array whose `[` is at `i`.
pub open spec fn p_array(s: Seq<char>, i: int) -> Step<JsonView>
    decreases s.len() - i, 0nat,
{
    let j = skip_ws(s, i + 1);
    if at_char(s, j, ']') {
        Ok((JsonView::Arr(Seq::empty()), j + 1))
    } else if i < j <= s.len() {
        p_items(s, j, Seq::empty())
    } else {
        Err((j, Seq::empty()))
    }
}

/// Array items from `j` on, with the items read so far.
pub open spec fn p_items(s: Seq<char>, j: int, acc: Seq<JsonView>) -> Step<JsonView>
    decreases s.len() - j, 2nat,
{
    let j1 = skip_ws(s, j);
    if !(j <= j1 <= s.len()) {
        Err((j1, Seq::empty()))
    } else {
        match p_value(s, j1) {
            Err(e) => Err(e),
            Ok((v, j2)) => {
                let j3 = skip_ws(s, j2);
                if j3 <= j1 {
                    Err((j3, Seq::empty()))
                } else if at_char(s, j3, ',') {
                    p_items(s, j3 + 1, acc.push(v))
                } else if at_char(s, j3, ']') {
                    Ok((JsonView::Arr(acc.push(v)), j3 + 1))
                } else {
                    Err((byte_at(s, j3), "expected `,` or `]` in array"@))
                }
            },
        }
    }
}

/// An object whose `{` is at `i`.
pub open spec fn p_object(s: Seq<char>, i: int) -> Step<JsonView>
    decreases s.len() - i, 0nat,
{
    let j = skip_ws(s, i + 1);
    if at_char(s, j, '}') {
        Ok((JsonView::Obj(Seq::empty()), j + 1))
    } else if i < j <= s.len() {
        p_members(s, j, Seq::empty())
    } else {
        Err((j, Seq::empty()))
    }
}

/// Object members from `j` on, with the members read so far in key order.
pub open spec fn p_members(s: Seq<char>, j: int, acc: Seq<(Seq<char>, JsonView)>) -> Step<JsonView>
    decreases s.len() - j, 2nat,
{
    let j1 = skip_ws(s, j);
    if !(j <= j1 <= s.len()) {
        Err((j1, Seq::empty()))
    } else if !at_char(s, j1, '"') {
        Err((byte_at(s, j1), "expected string key"@))
    } else {
        match p_string(s, j1) {
            Err(e) => Err(e),
            Ok((key, j2)) => {
                let j3 = skip_ws(s, j2);
                if !at_char(s, j3, ':') {
                    Err((byte_at(s, j3), "expected `:` after key"@))
                } else {
                    let j4 = skip_ws(s, j3 + 1);
                    if !(j1 < j4 <= s.len()) {
                        Err((j4, Seq::empty()))
                    } else {
                        match p_value(s, j4) {
                            Err(e) => Err(e),
                            Ok((v, j5)) => if has_key(acc, key) {
                                Err((byte_at(s, j5), "duplicate object key "@ + debug_text(key)))
                            } else {
                                let j6 = skip_ws(s, j5);
                                let acc2 = sorted_insert(acc, key, v);
                                if j6 <= j1 {
                                    Err((j6, Seq::empty()))
                                } else if at_char(s, j6, ',') {
                                    p_members(s, j6 + 1, acc2)
                                } else if at_char(s, j6, '}') {
                                    Ok((JsonView::Obj(acc2), j6 + 1))
                                } else {
                                    Err((byte_at(s, j6), "expected `,` or `}` in object"@))
                                }
                            },
                        }
                    }
                }
            },
        }
    }
}

/// A whole document: one value, surrounded only by white space.
pub open spec fn p_document(s: Seq<char>) -> Result<JsonView, (int, Seq<char>)> {
    match p_value(s, skip_ws(s, 0)) {
        Err(e) => Err(e),
        Ok((v, j)) => {
            let k = skip_ws(s, j);
            if k != s.len() {
                Err((byte_at(s, k), "trailing characters after value"@))
            } else {
                Ok(v)
            }
        },
    }
}

// ---------------------------------------------------------------------------
// UTF-8 lengths
// ---------------------------------------------------------------------------

pub proof fn lemma_utf8_concat(a: Seq<char>, b: Seq<char>)
    ensures
        encode_utf8(a + b) == encode_utf8(a) + encode_utf8(b),
    decreases a.len(),
{
    if a.len() == 0 {
        assert(a + b =~= b);
        assert(encode_utf8(a) + encode_utf8(b) =~= encode_utf8(b));
    } else {
        lemma_utf8_concat(a.drop_first(), b);
        assert((a + b).drop_first() =~= a.drop_first() + b);
        assert(encode_utf8(a + b) =~= encode_utf8(a) + encode_utf8(b));
    }
}

proof fn lemma_utf8_step(s: Seq<char>, k: int)
    requires
        0 <= k < s.len(),
    ensures
        utf8_len(s.take(k + 1)) == utf8_len(s.take(k)) + encode_scalar(s[k] as u32).len(),
        utf8_len(s.take(k + 1)) <= utf8_len(s),
{
    lemma_utf8_concat(s.take(k), seq![s[k]]);
    assert(s.take(k + 1) =~= s.take(k) + seq![s[k]]);
    let t = seq![s[k]];
    assert(t.drop_first() =~= Seq::<char>::empty());
    assert(encode_utf8(t.drop_first()) =~= Seq::<u8>::empty());
    assert(encode_utf8(t) == encode_scalar(t[0] as u32) + encode_utf8(t.drop_first()));
    assert(encode_utf8(t) =~= encode_scalar(s[k] as u32));
    lemma_utf8_concat(s.take(k + 1), s.skip(k + 1));
    assert(s =~= s.take(k + 1) + s.skip(k + 1));
}

/// The number of bytes UTF-8 spends on `c`.
fn char_len(c: char) -> (n: usize)
    ensures
        n == encode_scalar(c as u32).len(),
{
    proof {
        broadcast use vstd::utf8::char_is_scalar;

    }
    let u = c as u32;
    if u < 0x80 {
        1
    } else if u < 0x800 {
        2
    } else if u < 0x10000 {
        3
    } else {
        4
    }
}

/// A text whose UTF-8 encoding has a `usize` length, as every `str` does.
spec fn fits(s: Seq<char>) -> bool {
    utf8_len(s) <= usize::MAX
}

/// The byte offset of character position `p`.
fn byte_offset(s: &[char], p: usize) -> (r: usize)
    requires
        p <= s@.len(),
        fits(s@),
    ensures
        r == byte_at(s@, p as int),
{
    let mut k: usize = 0;
    let mut total: usize = 0;
    assert(s@.take(0) =~= Seq::<char>::empty());
    while k < p
        invariant
            k <= p <= s@.len(),
            fits(s@),
            total == utf8_len(s@.take(k as int)),
        decreases p - k,
    {
        proof {
            lemma_utf8_step(s@, k as int);
        }
        total = total + char_len(s[k]);
        k = k + 1;
    }
    total
}

// ---------------------------------------------------------------------------
// The parser
// ---------------------------------------------------------------------------

spec fn same_step<T>(r: Result<(T, usize), ParseError>, st: Step<T>) -> bool {
    match r {
        Ok((v, j)) => st == Ok::<(T, int), (int, Seq<char>)>((v, j as int)),
        Err(e) => st == Err::<(T, int), (int, Seq<char>)>((e.at as int, e.msg@)),
    }
}

spec fn same_text_step(r: Result<(String, usize), ParseError>, st: Step<Seq<char>>) -> bool {
    match r {
        Ok((v, j)) => st == Ok::<(Seq<char>, int), (int, Seq<char>)>((v@, j as int)),
        Err(e) => st == Err::<(Seq<char>, int), (int, Seq<char>)>((e.at as int, e.msg@)),
    }
}

spec fn same_value_step(r: Result<(Value, usize), ParseError>, st: Step<JsonView>) -> bool {
    match r {
        Ok((v, j)) => st == Ok::<(JsonView, int), (int, Seq<char>)>((v@, j as int)),
        Err(e) => st == Err::<(JsonView, int), (int, Seq<char>)>((e.at as int, e.msg@)),
    }
}

fn fail(s: &[char], p: usize, msg: &str) -> (e: ParseError)
    requires
        p <= s@.len(),
        fits(s@),
    ensures
        e.at == byte_at(s@, p as int),
        e.msg@ == msg@,
{
    ParseError { at: byte_offset(s, p), msg: String::from_str(msg) }
}

proof fn lemma_skip_ws(s: Seq<char>, j: int)
    requires
        0 <= j <= s.len(),
    ensures
        j <= skip_ws(s, j) <= s.len(),
    decreases s.len() - j,
{
    if j < s.len() && is_json_ws(s[j]) {
        lemma_skip_ws(s, j + 1);
    }
}

fn ws(s: &[char], i: usize) -> (j: usize)
    requires
        i <= s@.len(),
    ensures
        j == skip_ws(s@, i as int),
        i <= j <= s@.len(),
{
    let mut j = i;
    while j < s.len() && (s[j] == ' ' || s[j] == '\t' || s[j] == '\n' || s[j] == '\r')
        invariant
            i <= j <= s@.len(),
            skip_ws(s@, j as int) == skip_ws(s@, i as int),
        decreases s@.len() - j,
    {
        j = j + 1;
    }
    j
}

fn digits(s: &[char], i: usize) -> (j: usize)
    requires
        i <= s@.len(),
    ensures
        j == skip_digits(s@, i as int),
        i <= j <= s@.len(),
{
    let mut j = i;
    while j < s.len() && '0' <= s[j] && s[j] <= '9'
        invariant
            i <= j <= s@.len(),
            skip_digits(s@, j as int) == skip_digits(s@, i as int),
        decreases s@.len() - j,
    {
        j = j + 1;
    }
    j
}

fn literal(s: &[char], i: usize, lit: &str, v: Value) -> (r: Result<(Value, usize), ParseError>)
    requires
        i <= s@.len(),
        fits(s@),
    ensures
        same_value_step(r, p_literal(s@, i as int, lit@, v@)),
        r matches Ok((_, j)) ==> j == i + lit@.len() && j <= s@.len(),
{
    let l = crate::text::chars_of(lit);
    let n = l.len();
    let mut ok = n <= s.len() - i;
    if ok {
        let mut k: usize = 0;
        while k < n
            invariant
                n == l@.len(),
                l@.len() == lit@.len(),
                i + n <= s@.len(),
                k <= n,
                l@ == lit@,
                ok == (forall|m: int| 0 <= m < k ==> s@[i + m] == l@[m]),
            decreases n - k,
        {
            assert(s@.len() == s.len());
            let same = s[i + k] == l[k];
            ok = ok && same;
            k = k + 1;
        }
        assert(ok == (s@.subrange(i as int, i + n) =~= lit@));
    }
    if ok {
        Ok((v, i + n))
    } else {
        let mut msg = String::from_str("expected `");
        msg.append(lit);
        msg.append("`");
        Err(ParseError { at: byte_offset(s, i), msg })
    }
}

fn is_digit_char(c: char) -> (r: bool)
    ensures
        r == is_digit(c),
{
    '0' <= c && c <= '9'
}

fn int_end(s: &[char], j0: usize) -> (r: Result<usize, usize>)
    requires
        j0 <= s@.len(),
    ensures
        r matches Ok(j) ==> int_part_end(s@, j0 as int) == Ok::<int, int>(j as int) && j0 < j
            <= s@.len(),
        r matches Err(p) ==> int_part_end(s@, j0 as int) == Err::<int, int>(p as int) && p
            <= s@.len(),
{
    if j0 < s.len() && s[j0] == '0' {
        if j0 + 1 < s.len() && is_digit_char(s[j0 + 1]) {
            Err(j0 + 1)
        } else {
            Ok(j0 + 1)
        }
    } else if j0 < s.len() && '1' <= s[j0] && s[j0] <= '9' {
        proof {
            lemma_skip_digits(s@, j0 as int);
        }
        Ok(digits(s, j0))
    } else {
        Err(j0)
    }
}

fn frac_end(s: &[char], j1: usize) -> (r: Result<usize, usize>)
    requires
        j1 <= s@.len(),
    ensures
        r matches Ok(j) ==> frac_part_end(s@, j1 as int) == Ok::<int, int>(j as int) && j1 <= j
            <= s@.len(),
        r matches Err(p) ==> frac_part_end(s@, j1 as int) == Err::<int, int>(p as int) && p
            <= s@.len(),
{
    if j1 < s.len() && s[j1] == '.' {
        if j1 + 1 < s.len() && is_digit_char(s[j1 + 1]) {
            Ok(digits(s, j1 + 1))
        } else {
            Err(j1 + 1)
        }
    } else {
        Ok(j1)
    }
}

fn exp_end(s: &[char], j2: usize) -> (r: Result<usize, usize>)
    requires
        j2 <= s@.len(),
    ensures
        r matches Ok(j) ==> exp_part_end(s@, j2 as int) == Ok::<int, int>(j as int) && j2 <= j
            <= s@.len(),
        r matches Err(p) ==> exp_part_end(s@, j2 as int) == Err::<int, int>(p as int) && p
            <= s@.len(),
{
    if j2 < s.len() && (s[j2] == 'e' || s[j2] == 'E') {
        let k = if j2 + 1 < s.len() && (s[j2 + 1] == '+' || s[j2 + 1] == '-') {
            j2 + 2
        } else {
            j2 + 1
        };
        if k < s.len() && is_digit_char(s[k]) {
            Ok(digits(s, k))
        } else {
            Err(k)
        }
    } else {
        Ok(j2)
    }
}

proof fn lemma_skip_digits(s: Seq<char>, j: int)
    requires
        0 <= j < s.len(),
        is_digit(s[j]),
    ensures
        j < skip_digits(s, j),
{
    lemma_skip_digits_ge(s, j + 1);
}

proof fn lemma_skip_digits_ge(s: Seq<char>, j: int)
    ensures
        j <= skip_digits(s, j),
    decreases s.len() - j,
{
    if 0 <= j < s.len() && is_digit(s[j]) {
        lemma_skip_digits_ge(s, j + 1);
    }
}

fn number(s: &[char], i: usize) -> (r: Result<(Value, usize), ParseError>)
    requires
        i < s@.len(),
        fits(s@),
    ensures
        same_value_step(r, p_number(s@, i as int)),
        r matches Ok((_, j)) ==> i < j <= s@.len(),
{
    let j0 = if s[i] == '-' {
        i + 1
    } else {
        i
    };
    let j1 = match int_end(s, j0) {
        Ok(j) => j,
        Err(p) => {
            if p == j0 {
                return Err(fail(s, p, "expected digit in number"));
            } else {
                return Err(fail(s, p, "leading zero in number"));
            }
        },
    };
    let j2 = match frac_end(s, j1) {
        Ok(j) => j,
        Err(p) => {
            return Err(fail(s, p, "expected digit after decimal point"));
        },
    };
    let j3 = match exp_end(s, j2) {
        Ok(j) => j,
        Err(p) => {
            return Err(fail(s, p, "expected digit in exponent"));
        },
    };
    let text = vstd::slice::slice_subrange(s, i, j3);
    assert(text@ =~= s@.subrange(i as int, j3 as int));
    match crate::number::parse_float_text(text) {
        Some(n) => Ok((Value::Num(n), j3)),
        None => {
            let mut msg = String::from_str("invalid or non-finite number `");
            let t = crate::text::string_from_chars(text);
            msg.append(t.as_str());
            msg.append("`");
            Err(ParseError { at: byte_offset(s, i), msg })
        },
    }
}

spec fn pow16(k: int) -> int {
    if k <= 0 {
        1
    } else if k == 1 {
        16
    } else if k == 2 {
        256
    } else if k == 3 {
        4096
    } else {
        65536
    }
}

fn hex4(s: &[char], i: usize) -> (r: Result<(u32, usize), ParseError>)
    requires
        i <= s@.len(),
        fits(s@),
    ensures
        same_step(r, p_hex4(s@, i as int)),
        r matches Ok((cp, j)) ==> j == i + 4 && j <= s@.len() && cp <= 0xFFFF,
{
    let mut k: usize = 0;
    let mut acc: u32 = 0;
    while k < 4
        invariant
            k <= 4,
            i <= s@.len(),
            fits(s@),
            acc < pow16(k as int),
            i + k <= s@.len(),
            p_hex4(s@, i as int) == p_hex_digits(s@, i as int, k as int, acc as int),
        decreases 4 - k,
    {
        assert(s@.len() == s.len());
        if s.len() - i <= k {
            return Err(fail(s, i + k, "truncated \\u escape"));
        }
        let c = s[i + k];
        let d: u32 = if '0' <= c && c <= '9' {
            (c as u32) - 48
        } else if 'a' <= c && c <= 'f' {
            (c as u32) - 87
        } else if 'A' <= c && c <= 'F' {
            (c as u32) - 55
        } else {
            return Err(fail(s, i + k, "invalid hex digit in \\u escape"));
        };
        assert(d == hex_val(c));
        acc = acc * 16 + d;
        k = k + 1;
    }
    assert(s@.len() == s.len());
    Ok((acc, i + 4))
}

/// The character whose scalar value is `u`, if `u` is one.
///
/// Trusted: `char::from_u32`, documented to return `None` exactly for
/// surrogates and values above `0x10FFFF`.
#[verifier::external_body]
fn char_from_u32(u: u32) -> (r: Option<char>)
    ensures
        match r {
            Some(c) => vstd::utf8::is_scalar(u) && c == u as char,
            None => !vstd::utf8::is_scalar(u),
        },
{
    char::from_u32(u)
}

fn unicode(s: &[char], j2: usize) -> (r: Result<(char, usize), ParseError>)
    requires
        j2 <= s@.len(),
        fits(s@),
    ensures
        same_step(r, p_unicode(s@, j2 as int)),
        r matches Ok((_, k)) ==> j2 < k <= s@.len(),
{
    let (cp, j3) = match hex4(s, j2) {
        Err(e) => {
            return Err(e);
        },
        Ok(x) => x,
    };
    if 0xD800 <= cp && cp <= 0xDBFF {
        if j3 < s.len() && s[j3] == '\\' && s.len() - j3 > 1 && s[j3 + 1] == 'u' {
            let (lo, j5) = match hex4(s, j3 + 2) {
                Err(e) => {
                    return Err(e);
                },
                Ok(x) => x,
            };
            if !(0xDC00 <= lo && lo <= 0xDFFF) {
                return Err(fail(s, j5, "high surrogate is not followed by a low surrogate"));
            }
            let c: u32 = 0x10000 + (cp - 0xD800) * 1024 + (lo - 0xDC00);
            match char_from_u32(c) {
                Some(ch) => Ok((ch, j5)),
                None => Err(fail(s, j5, "invalid unicode scalar value")),
            }
        } else {
            Err(fail(s, j3, "unpaired high surrogate"))
        }
    } else if 0xDC00 <= cp && cp <= 0xDFFF {
        Err(fail(s, j3, "unpaired low surrogate"))
    } else {
        match char_from_u32(cp) {
            Some(ch) => Ok((ch, j3)),
            None => Err(fail(s, j3, "invalid unicode scalar value")),
        }
    }
}

fn simple_escape_exec(c: char) -> (r: Option<char>)
    ensures
        r == simple_escape(c),
{
    if c == '"' {
        Some('"')
    } else if c == '\\' {
        Some('\\')
    } else if c == '/' {
        Some('/')
    } else if c == 'b' {
        Some('\x08')
    } else if c == 'f' {
        Some('\x0c')
    } else if c == 'n' {
        Some('\n')
    } else if c == 'r' {
        Some('\r')
    } else if c == 't' {
        Some('\t')
    } else {
        None
    }
}

fn raw_control(c: char) -> (r: bool)
    ensures
        r == is_raw_control(c),
{
    (c as u32) < 32
}

fn string(s: &[char], i: usize) -> (r: Result<(String, usize), ParseError>)
    requires
        i < s@.len(),
        fits(s@),
    ensures
        same_text_step(r, p_string(s@, i as int)),
        r matches Ok((_, j)) ==> i < j <= s@.len(),
{
    assert(s@.len() == s.len());
    let mut out: Vec<char> = Vec::new();
    let mut j = i + 1;
    loop
        invariant
            i < j <= s@.len(),
            fits(s@),
            p_string(s@, i as int) == p_string_rest(s@, j as int, out@),
        decreases s@.len() - j,
    {
        assert(s@.len() == s.len());
        if j >= s.len() {
            return Err(fail(s, j, "unterminated string"));
        }
        let c = s[j];
        if c == '"' {
            let t = crate::text::string_from_chars(out.as_slice());
            return Ok((t, j + 1));
        } else if c == '\\' {
            if j + 1 >= s.len() {
                return Err(fail(s, j + 1, "unterminated escape"));
            }
            let esc = s[j + 1];
            match simple_escape_exec(esc) {
                Some(e) => {
                    out.push(e);
                    j = j + 2;
                },
                None => {
                    if esc == 'u' {
                        match unicode(s, j + 2) {
                            Err(e) => {
                                return Err(e);
                            },
                            Ok((ch, k)) => {
                                out.push(ch);
                                j = k;
                            },
                        }
                    } else {
                        proof {
                            lemma_utf8_step(s@, j + 1);
                        }
                        let at = byte_offset(s, j + 1) + 1;
                        return Err(ParseError { at, msg: String::from_str("invalid escape") });
                    }
                },
            }
        } else if raw_control(c) {
            return Err(fail(s, j, "raw control character in string"));
        } else {
            out.push(c);
            j = j + 1;
        }
    }
}

pub(crate) proof fn lemma_member_views_insert(e: Seq<(Seq<char>, Value)>, k: Seq<char>, v: Value)
    ensures
        member_views(sorted_insert(e, k, v)) == sorted_insert(member_views(e), k, json_view(v)),
    decreases e.len(),
{
    let me = member_views(e);
    if e.len() == 0 {
        assert(member_views(sorted_insert(e, k, v)) =~= seq![(k, json_view(v))]);
    } else {
        assert(me[0].0 == e[0].0);
        assert(me.drop_first() =~= member_views(e.drop_first()));
        if e[0].0 == k {
            assert(member_views(sorted_insert(e, k, v)) =~= seq![(k, json_view(v))]
                + me.drop_first());
        } else if crate::textmap::key_lt(k, e[0].0) {
            assert(member_views(sorted_insert(e, k, v)) =~= seq![(k, json_view(v))] + me);
        } else {
            lemma_member_views_insert(e.drop_first(), k, v);
            assert(member_views(sorted_insert(e, k, v)) =~= seq![me[0]] + member_views(
                sorted_insert(e.drop_first(), k, v),
            ));
        }
    }
}

/// A member's value as plain values.
pub open spec fn opt_view(o: Option<Value>) -> Option<JsonView> {
    match o {
        Some(v) => Some(json_view(v)),
        None => None,
    }
}

pub(crate) proof fn lemma_member_views_lookup(e: Seq<(Seq<char>, Value)>, k: Seq<char>)
    ensures
        crate::textmap::lookup(member_views(e), k) == opt_view(crate::textmap::lookup(e, k)),
    decreases e.len(),
{
    if e.len() > 0 {
        assert(member_views(e).drop_last() =~= member_views(e.drop_last()));
        lemma_member_views_lookup(e.drop_last(), k);
    }
}

pub(crate) proof fn lemma_member_views_delete(e: Seq<(Seq<char>, Value)>, k: Seq<char>)
    ensures
        member_views(crate::textmap::sorted_delete(e, k)) == crate::textmap::sorted_delete(
            member_views(e),
            k,
        ),
    decreases e.len(),
{
    let me = member_views(e);
    if e.len() > 0 {
        assert(me.drop_first() =~= member_views(e.drop_first()));
        if e[0].0 == k {
        } else {
            lemma_member_views_delete(e.drop_first(), k);
            assert(member_views(crate::textmap::sorted_delete(e, k)) =~= seq![me[0]]
                + member_views(crate::textmap::sorted_delete(e.drop_first(), k)));
        }
    }
}

proof fn lemma_member_views_has_key(e: Seq<(Seq<char>, Value)>, k: Seq<char>)
    ensures
        has_key(member_views(e), k) == has_key(e, k),
{
    let me = member_views(e);
    if has_key(e, k) {
        let i = choose|i: int| 0 <= i < e.len() && #[trigger] e[i].0 == k;
        assert(me[i].0 == k);
    }
    if has_key(me, k) {
        let i = choose|i: int| 0 <= i < me.len() && #[trigger] me[i].0 == k;
        assert(e[i].0 == k);
    }
}

fn value(s: &[char], i: usize) -> (r: Result<(Value, usize), ParseError>)
    requires
        i <= s@.len(),
        fits(s@),
    ensures
        same_value_step(r, p_value(s@, i as int)),
        r matches Ok((_, j)) ==> i < j <= s@.len(),
    decreases s@.len() - i, 1nat,
{
    proof {
        broadcast use group_json_view;

    }
    if i >= s.len() {
        return Err(fail(s, i, "unexpected end of input"));
    }
    proof {
        reveal_strlit("null");
        reveal_strlit("true");
        reveal_strlit("false");
    }
    let c = s[i];
    if c == 'n' {
        literal(s, i, "null", Value::Null)
    } else if c == 't' {
        literal(s, i, "true", Value::Bool(true))
    } else if c == 'f' {
        literal(s, i, "false", Value::Bool(false))
    } else if c == '"' {
        match string(s, i) {
            Ok((t, j)) => Ok((Value::Str(t), j)),
            Err(e) => Err(e),
        }
    } else if c == '{' {
        object(s, i)
    } else if c == '[' {
        array(s, i)
    } else if c == '-' || is_digit_char(c) {
        number(s, i)
    } else {
        Err(fail(s, i, "unexpected character"))
    }
}

#[verifier::rlimit(40)]
fn array(s: &[char], i: usize) -> (r: Result<(Value, usize), ParseError>)
    requires
        i < s@.len(),
        fits(s@),
    ensures
        same_value_step(r, p_array(s@, i as int)),
        r matches Ok((_, j)) ==> i < j <= s@.len(),
    decreases s@.len() - i, 0nat,
{
    assert(s@.len() == s.len());
    let j = ws(s, i + 1);
    if j < s.len() && s[j] == ']' {
        let items: Vec<Value> = Vec::new();
        assert(item_views(items@) =~= Seq::<JsonView>::empty());
        proof {
            lemma_view_arr(items);
        }
        return Ok((Value::Arr(items), j + 1));
    }
    let mut items: Vec<Value> = Vec::new();
    assert(item_views(items@) =~= Seq::<JsonView>::empty());
    let mut p = j;
    loop
        invariant
            i < p <= s@.len(),
            fits(s@),
            p_array(s@, i as int) == p_items(s@, p as int, item_views(items@)),
        decreases s@.len() - p,
    {
        assert(s@.len() == s.len());
        let j1 = ws(s, p);
        let (v, j2) = match value(s, j1) {
            Err(e) => {
                return Err(e);
            },
            Ok(x) => x,
        };
        let j3 = ws(s, j2);
        let ghost before = item_views(items@);
        if j3 < s.len() && s[j3] == ',' {
            items.push(v);
            assert(item_views(items@) =~= before.push(v@));
            p = j3 + 1;
        } else if j3 < s.len() && s[j3] == ']' {
            items.push(v);
            assert(item_views(items@) =~= before.push(v@));
            proof {
                lemma_view_arr(items);
            }
            return Ok((Value::Arr(items), j3 + 1));
        } else {
            return Err(fail(s, j3, "expected `,` or `]` in array"));
        }
    }
}

#[verifier::rlimit(40)]
fn object(s: &[char], i: usize) -> (r: Result<(Value, usize), ParseError>)
    requires
        i < s@.len(),
        fits(s@),
    ensures
        same_value_step(r, p_object(s@, i as int)),
        r matches Ok((_, j)) ==> i < j <= s@.len(),
    decreases s@.len() - i, 0nat,
{
    assert(s@.len() == s.len());
    let j = ws(s, i + 1);
    if j < s.len() && s[j] == '}' {
        let map: TextMap<Value> = TextMap::new();
        assert(member_views(map.entries()) =~= Seq::<(Seq<char>, JsonView)>::empty());
        proof {
            lemma_view_obj(map);
        }
        return Ok((Value::Obj(map), j + 1));
    }
    let mut map: TextMap<Value> = TextMap::new();
    assert(member_views(map.entries()) =~= Seq::<(Seq<char>, JsonView)>::empty());
    let mut p = j;
    loop
        invariant
            i < p <= s@.len(),
            fits(s@),
            p_object(s@, i as int) == p_members(s@, p as int, member_views(map.entries())),
        decreases s@.len() - p,
    {
        assert(s@.len() == s.len());
        let j1 = ws(s, p);
        if !(j1 < s.len() && s[j1] == '"') {
            return Err(fail(s, j1, "expected string key"));
        }
        let (key, j2) = match string(s, j1) {
            Err(e) => {
                return Err(e);
            },
            Ok(x) => x,
        };
        let j3 = ws(s, j2);
        if !(j3 < s.len() && s[j3] == ':') {
            return Err(fail(s, j3, "expected `:` after key"));
        }
        let j4 = ws(s, j3 + 1);
        let (v, j5) = match value(s, j4) {
            Err(e) => {
                return Err(e);
            },
            Ok(x) => x,
        };
        let ghost e0 = map.entries();
        proof {
            lemma_member_views_has_key(e0, key@);
            use_type_invariant(&map);
            crate::textmap::lemma_lookup_some(e0, key@);
        }
        if map.contains_key(key.as_str()) {
            let mut msg = String::from_str("duplicate object key ");
            let d = debug_str(key.as_str());
            msg.append(d.as_str());
            return Err(ParseError { at: byte_offset(s, j5), msg });
        }
        proof {
            lemma_member_views_insert(e0, key@, v);
        }
        map.insert(key, v);
        let j6 = ws(s, j5);
        if j6 < s.len() && s[j6] == ',' {
            p = j6 + 1;
        } else if j6 < s.len() && s[j6] == '}' {
            proof {
                lemma_view_obj(map);
            }
            return Ok((Value::Obj(map), j6 + 1));
        } else {
            return Err(fail(s, j6, "expected `,` or `}` in object"));
        }
    }
}

/// Strictly parses a JSON document. Trailing content is an error.
pub fn parse(input: &str) -> (r: Result<Value, ParseError>)
    ensures
        match p_document(input@) {
            Ok(v) => r matches Ok(x) && x@ == v,
            Err((at, msg)) => r matches Err(e) && e.at == at && e.msg@ == msg,
        },
{
    let total = input.as_bytes().len();
    let chars = crate::text::chars_of(input);
    let s = chars.as_slice();
    assert(fits(s@));
    let i = ws(s, 0);
    let (v, j) = match value(s, i) {
        Err(e) => {
            return Err(e);
        },
        Ok(x) => x,
    };
    let k = ws(s, j);
    if k != s.len() {
        return Err(fail(s, k, "trailing characters after value"));
    }
    Ok(v)
}

// ---------------------------------------------------------------------------
// Compact serialization
// ---------------------------------------------------------------------------

/// A character as it stands inside a quoted JSON string.
pub open spec fn escaped_char(c: char) -> Seq<char> {
    if c == '"' {
        seq!['\\', '"']
    } else if c == '\\' {
        seq!['\\', '\\']
    } else if c == '\n' {
        seq!['\\', 'n']
    } else if c == '\r' {
        seq!['\\', 'r']
    } else if c == '\t' {
        seq!['\\', 't']
    } else if is_raw_control(c) {
        seq!['\\', 'u'] + hex_digits(c as u64, 4)
    } else {
        seq![c]
    }
}

pub open spec fn escaped(s: Seq<char>) -> Seq<char>
    decreases s.len(),
{
    if s.len() == 0 {
        Seq::empty()
    } else {
        escaped(s.drop_last()) + escaped_char(s.last())
    }
}

/// A text as a JSON string literal.
pub open spec fn quoted(s: Seq<char>) -> Seq<char> {
    seq!['"'] + escaped(s) + seq!['"']
}

/// The compact JSON text of a value.
pub open spec fn json_text(v: JsonView) -> Seq<char>
    decreases v,
{
    match v {
        JsonView::Null => "null"@,
        JsonView::Bool(b) => if b {
            "true"@
        } else {
            "false"@
        },
        JsonView::Num(n) => num_text(n),
        JsonView::Str(t) => quoted(t),
        JsonView::Arr(items) => seq!['['] + items_text(items) + seq![']'],
        JsonView::Obj(members) => seq!['{'] + members_text(members) + seq!['}'],
    }
}

/// Array items, comma separated.
pub open spec fn items_text(items: Seq<JsonView>) -> Seq<char>
    decreases items,
{
    if items.len() == 0 {
        Seq::empty()
    } else if items.len() == 1 {
        json_text(items[0])
    } else {
        items_text(items.drop_last()) + seq![','] + json_text(items.last())
    }
}

/// Object members, comma separated, each a quoted key, `:` and a value.
pub open spec fn members_text(members: Seq<(Seq<char>, JsonView)>) -> Seq<char>
    decreases members,
{
    if members.len() == 0 {
        Seq::empty()
    } else if members.len() == 1 {
        quoted(members[0].0) + seq![':'] + json_text(members[0].1)
    } else {
        members_text(members.drop_last()) + seq![','] + quoted(members.last().0) + seq![':']
            + json_text(members.last().1)
    }
}

fn push_text(out: &mut Vec<char>, t: &str)
    ensures
        final(out)@ == old(out)@ + t@,
{
    let ghost start = out@;
    for c in it: t.chars()
        invariant
            it.seq() == t@,
            out@ == start + it.seq().take(it.index() as int),
    {
        assert(it.seq().take(it.index() + 1) =~= it.seq().take(it.index() as int).push(c));
        out.push(c);
    }
    assert(t@.take(t@.len() as int) =~= t@);
}

fn write_quoted(t: &str, out: &mut Vec<char>)
    ensures
        final(out)@ == old(out)@ + quoted(t@),
{
    let ghost start = out@;
    let cs = crate::text::chars_of(t);
    out.push('"');
    let mut i: usize = 0;
    assert(cs@.take(0) =~= Seq::<char>::empty());
    while i < cs.len()
        invariant
            i <= cs@.len(),
            cs@ == t@,
            out@ == start + seq!['"'] + escaped(cs@.take(i as int)),
        decreases cs@.len() - i,
    {
        let c = cs[i];
        let ghost before = out@;
        if c == '"' {
            out.push('\\');
            out.push('"');
        } else if c == '\\' {
            out.push('\\');
            out.push('\\');
        } else if c == '\n' {
            out.push('\\');
            out.push('n');
        } else if c == '\r' {
            out.push('\\');
            out.push('r');
        } else if c == '\t' {
            out.push('\\');
            out.push('t');
        } else if raw_control(c) {
            out.push('\\');
            out.push('u');
            let h = crate::text::hex_digits_exec(c as u64, 4);
            let mut k: usize = 0;
            while k < h.len()
                invariant
                    k <= h@.len(),
                    out@ == before + seq!['\\', 'u'] + h@.take(k as int),
                decreases h@.len() - k,
            {
                assert(h@.take(k + 1) =~= h@.take(k as int).push(h@[k as int]));
                out.push(h[k]);
                k = k + 1;
            }
            assert(h@.take(h@.len() as int) =~= h@);
        } else {
            out.push(c);
        }
        assert(out@ =~= before + escaped_char(c));
        assert(cs@.take(i + 1).drop_last() =~= cs@.take(i as int));
        i = i + 1;
    }
    assert(cs@.take(cs@.len() as int) =~= cs@);
    out.push('"');
}

fn write_value(v: &Value, out: &mut Vec<char>)
    ensures
        final(out)@ == old(out)@ + json_text(v@),
        crate::json_laws::readable(v@),
    decreases v, 1nat,
{
    proof {
        broadcast use group_json_view;

    }
    if let Value::Num(n) = v {
        proof {
            use_type_invariant(n);
        }
    }
    match v {
        Value::Null => push_text(out, "null"),
        Value::Bool(b) => if *b {
            push_text(out, "true")
        } else {
            push_text(out, "false")
        },
        Value::Num(n) => {
            let t = n.to_text();
            push_text(out, t.as_str());
        },
        Value::Str(t) => write_quoted(t.as_str(), out),
        Value::Arr(items) => {
            proof {
                assert(decreases_to!(*v => (*v)->Arr_0));
            }
            out.push('[');
            write_items(items, out);
            out.push(']');
        },
        Value::Obj(m) => {
            proof {
                assert(decreases_to!(*v => (*v)->Obj_0));
            }
            out.push('{');
            write_members(m, out);
            out.push('}');
        },
    }
}

fn write_items(items: &Vec<Value>, out: &mut Vec<char>)
    ensures
        final(out)@ == old(out)@ + items_text(item_views(items@)),
        crate::json_laws::items_readable(item_views(items@)),
    decreases items, 0nat,
{
    let ghost start = out@;
    let ghost views = item_views(items@);
    let mut i: usize = 0;
    assert(views.take(0) =~= Seq::<JsonView>::empty());
    while i < items.len()
        invariant
            i <= items@.len(),
            views == item_views(items@),
            out@ == start + items_text(views.take(i as int)),
            crate::json_laws::items_readable(views.take(i as int)),
        decreases items@.len() - i,
    {
        if i > 0 {
            out.push(',');
        }
        proof {
            assert(decreases_to!(*items => items@));
            assert(decreases_to!(items@ => items@[i as int]));
        }
        write_value(&items[i], out);
        assert(views.take(i + 1).drop_last() =~= views.take(i as int));
        assert(views.take(i + 1).last() == views[i as int]);
        i = i + 1;
    }
    assert(views.take(items@.len() as int) =~= views);
}

fn write_members(m: &TextMap<Value>, out: &mut Vec<char>)
    ensures
        final(out)@ == old(out)@ + members_text(member_views(m.entries())),
        crate::textmap::keys_increasing(member_views(m.entries())),
        crate::json_laws::members_readable(member_views(m.entries())),
    decreases m, 0nat,
{
    let ghost start = out@;
    let ghost views = member_views(m.entries());
    proof {
        m.lemma_entries_def();
        use_type_invariant(m);
        assert forall|a: int, b: int| 0 <= a < b < views.len() implies crate::textmap::key_lt(
            #[trigger] views[a].0,
            #[trigger] views[b].0,
        ) by {
            assert(views[a].0 == m.entries()[a].0 && views[b].0 == m.entries()[b].0);
        }
    }
    let mut i: usize = 0;
    assert(views.take(0) =~= Seq::<(Seq<char>, JsonView)>::empty());
    while i < m.entries.len()
        invariant
            i <= m.entries@.len(),
            m.entries() == crate::textmap::entry_views(m.entries@),
            views == member_views(m.entries()),
            out@ == start + members_text(views.take(i as int)),
            crate::json_laws::members_readable(views.take(i as int)),
        decreases m.entries@.len() - i,
    {
        if i > 0 {
            out.push(',');
        }
        write_quoted(m.entries[i].0.as_str(), out);
        out.push(':');
        proof {
            assert(decreases_to!(*m => m.entries));
            assert(decreases_to!(m.entries => m.entries@));
            assert(decreases_to!(m.entries@ => m.entries@[i as int]));
            assert(decreases_to!(m.entries@[i as int] => m.entries@[i as int].1));
        }
        write_value(&m.entries[i].1, out);
        assert(views.take(i + 1).drop_last() =~= views.take(i as int));
        assert(views.take(i + 1).last() == views[i as int]);
        i = i + 1;
    }
    assert(views.take(m.entries@.len() as int) =~= views);
}

impl Value {
    /// Serializes the value as compact JSON. The text parses back to this
    /// very value.
    pub fn to_string(&self) -> (r: String)
        ensures
            r@ == json_text(self@),
            crate::json_laws::readable(self@),
            p_document(r@) == Ok::<JsonView, (int, Seq<char>)>(self@),
    {
        let mut out: Vec<char> = Vec::new();
        write_value(self, &mut out);
        assert(out@ =~= json_text(self@));
        proof {
            crate::json_laws::law_printed_value_reads_back(self@);
        }
        crate::text::string_from_chars(out.as_slice())
    }
}

pub(crate) fn duplicate_items(items: &Vec<Value>) -> (r: Vec<Value>)
    ensures
        item_views(r@) == item_views(items@),
    decreases items, 0nat,
{
    let mut out: Vec<Value> = Vec::new();
    let mut i: usize = 0;
    while i < items.len()
        invariant
            i <= items@.len(),
            item_views(out@) == item_views(items@).take(i as int),
        decreases items@.len() - i,
    {
        proof {
            assert(decreases_to!(*items => items@));
            assert(decreases_to!(items@ => items@[i as int]));
        }
        let v = items[i].duplicate();
        let ghost before = out@;
        out.push(v);
        assert(item_views(out@) =~= item_views(before).push(json_view(items@[i as int])));
        assert(item_views(items@).take(i + 1) =~= item_views(items@).take(i as int).push(
            json_view(items@[i as int]),
        ));
        i = i + 1;
    }
    assert(item_views(items@).take(items@.len() as int) =~= item_views(items@));
    out
}

pub(crate) fn duplicate_members(m: &TextMap<Value>) -> (r: TextMap<Value>)
    ensures
        member_views(r.entries()) == member_views(m.entries()),
    decreases m, 0nat,
{
    proof {
        m.lemma_entries_def();
        use_type_invariant(m);
    }
    let mut out: Vec<(String, Value)> = Vec::new();
    let mut i: usize = 0;
    while i < m.entries.len()
        invariant
            i <= m.entries@.len(),
            m.entries() == crate::textmap::entry_views(m.entries@),
            out@.len() == i,
            forall|k: int|
                0 <= k < i ==> (#[trigger] out@[k]).0@ == m.entries@[k].0@ && json_view(out@[k].1)
                    == json_view(m.entries@[k].1),
        decreases m.entries@.len() - i,
    {
        proof {
            assert(decreases_to!(*m => m.entries));
            assert(decreases_to!(m.entries => m.entries@));
            assert(decreases_to!(m.entries@ => m.entries@[i as int]));
            assert(decreases_to!(m.entries@[i as int] => m.entries@[i as int].1));
        }
        let v = m.entries[i].1.duplicate();
        let k = m.entries[i].0.clone();
        out.push((k, v));
        i = i + 1;
    }
    let ghost e = crate::textmap::entry_views(out@);
    assert forall|a: int, b: int| 0 <= a < b < e.len() implies crate::textmap::key_lt(
        #[trigger] e[a].0,
        #[trigger] e[b].0,
    ) by {
        assert(e[a].0 == m.entries()[a].0);
        assert(e[b].0 == m.entries()[b].0);
    }
    let r = TextMap::from_sorted(out);
    assert(member_views(r.entries()) =~= member_views(m.entries()));
    r
}

impl Value {
    /// A deep copy of this value.
    pub fn duplicate(&self) -> (r: Value)
        ensures
            r@ == self@,
        decreases self, 1nat,
    {
        proof {
            broadcast use group_json_view;

        }
        match self {
            Value::Null => Value::Null,
            Value::Bool(b) => Value::Bool(*b),
            Value::Num(n) => Value::Num(n.duplicate()),
            Value::Str(s) => Value::Str(s.clone()),
            Value::Arr(items) => {
                proof {
                    assert(decreases_to!(*self => (*self)->Arr_0));
                }
                Value::Arr(duplicate_items(items))
            },
            Value::Obj(m) => {
                proof {
                    assert(decreases_to!(*self => (*self)->Obj_0));
                }
                Value::Obj(duplicate_members(m))
            },
        }
    }
}

fn same_items(a: &Vec<Value>, b: &Vec<Value>) -> (r: bool)
    ensures
        r == (item_views(a@) == item_views(b@)),
    decreases a, 0nat,
{
    if a.len() != b.len() {
        assert(item_views(a@).len() != item_views(b@).len());
        return false;
    }
    let mut i: usize = 0;
    while i < a.len()
        invariant
            i <= a@.len(),
            a@.len() == b@.len(),
            forall|k: int| 0 <= k < i ==> json_view(a@[k]) == json_view(b@[k]),
        decreases a@.len() - i,
    {
        proof {
            assert(decreases_to!(*a => a@));
            assert(decreases_to!(a@ => a@[i as int]));
        }
        if !a[i].same(&b[i]) {
            assert(item_views(a@)[i as int] != item_views(b@)[i as int]);
            return false;
        }
        i = i + 1;
    }
    assert(item_views(a@) =~= item_views(b@));
    true
}

fn same_members(a: &TextMap<Value>, b: &TextMap<Value>) -> (r: bool)
    ensures
        r == (member_views(a.entries()) == member_views(b.entries())),
    decreases a, 0nat,
{
    proof {
        a.lemma_entries_def();
        b.lemma_entries_def();
    }
    if a.entries.len() != b.entries.len() {
        assert(member_views(a.entries()).len() != member_views(b.entries()).len());
        return false;
    }
    let mut i: usize = 0;
    while i < a.entries.len()
        invariant
            i <= a.entries@.len(),
            a.entries@.len() == b.entries@.len(),
            a.entries() == crate::textmap::entry_views(a.entries@),
            b.entries() == crate::textmap::entry_views(b.entries@),
            forall|k: int|
                0 <= k < i ==> a.entries@[k].0@ == b.entries@[k].0@ && json_view(a.entries@[k].1)
                    == json_view(b.entries@[k].1),
        decreases a.entries@.len() - i,
    {
        proof {
            assert(decreases_to!(*a => a.entries));
            assert(decreases_to!(a.entries => a.entries@));
            assert(decreases_to!(a.entries@ => a.entries@[i as int]));
            assert(decreases_to!(a.entries@[i as int] => a.entries@[i as int].1));
        }
        if !crate::erasure::str_eq(a.entries[i].0.as_str(), b.entries[i].0.as_str())
            || !a.entries[i].1.same(&b.entries[i].1) {
            assert(member_views(a.entries())[i as int] != member_views(b.entries())[i as int]);
            return false;
        }
        i = i + 1;
    }
    assert(member_views(a.entries()) =~= member_views(b.entries()));
    true
}

impl Value {
    /// Whether two values are equal.
    pub fn same(&self, other: &Value) -> (r: bool)
        ensures
            r == (self@ == other@),
        decreases self, 1nat,
    {
        proof {
            broadcast use group_json_view;

        }
        match (self, other) {
            (Value::Null, Value::Null) => true,
            (Value::Bool(a), Value::Bool(b)) => *a == *b,
            (Value::Num(a), Value::Num(b)) => a.same(b),
            (Value::Str(a), Value::Str(b)) => crate::erasure::str_eq(a.as_str(), b.as_str()),
            (Value::Arr(a), Value::Arr(b)) => {
                proof {
                    assert(decreases_to!(*self => (*self)->Arr_0));
                }
                same_items(a, b)
            },
            (Value::Obj(a), Value::Obj(b)) => {
                proof {
                    assert(decreases_to!(*self => (*self)->Obj_0));
                }
                same_members(a, b)
            },
            _ => false,
        }
    }
}

/// A value found under a key of an object is part of that object.
pub(crate) proof fn lemma_member_value_smaller(v: Value, k: Seq<char>, c: Value)
    requires
        v matches Value::Obj(m) && crate::textmap::lookup(m.entries(), k) == Some(c),
    ensures
        decreases_to!(v => c),
{
    let m = v->Obj_0;
    m.lemma_entries_def();
    crate::textmap::lemma_lookup_member(m.entries(), k);
    let j = choose|j: int| 0 <= j < m.entries().len() && #[trigger] m.entries()[j].1 == c;
    assert(m.entries()[j].1 == m.entries@[j].1);
    assert(decreases_to!(v => v->Obj_0));
    assert(decreases_to!(m => m.entries));
    assert(decreases_to!(m.entries => m.entries@));
    assert(decreases_to!(m.entries@ => m.entries@[j]));
    assert(decreases_to!(m.entries@[j] => m.entries@[j].1));
}

/// The value of entry `j` of an object is part of that object.
pub(crate) proof fn lemma_entry_value_smaller(v: Value, j: int)
    requires
        v matches Value::Obj(m) && 0 <= j < m.entries().len(),
    ensures
        decreases_to!(v => v->Obj_0.entries()[j].1),
{
    let m = v->Obj_0;
    m.lemma_entries_def();
    assert(decreases_to!(v => v->Obj_0));
    assert(decreases_to!(m => m.entries));
    assert(decreases_to!(m.entries => m.entries@));
    assert(decreases_to!(m.entries@ => m.entries@[j]));
    assert(decreases_to!(m.entries@[j] => m.entries@[j].1));
}

// ---------------------------------------------------------------------------
// Parsed values are well keyed
// ---------------------------------------------------------------------------

/// Every value the strict parser accepts keeps its object keys in order.
pub proof fn lemma_document_well_keyed(s: Seq<char>)
    ensures
        p_document(s) matches Ok(v) ==> well_keyed(v),
{
    crate::json_laws::lemma_document_readable(s);
    if let Ok(v) = p_document(s) {
        crate::json_laws::lemma_readable_well_keyed(v);
    }
}

} // verus!
