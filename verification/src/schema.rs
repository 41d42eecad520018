//! The legislated layer: a deliberately small schema language. It names
//! what it requires and leaves everything it does not name alone.

use vstd::prelude::*;

use crate::digest::SchemaError;
use crate::erasure::str_eq;
use crate::json::{item_views, member_views, JsonView, Value};
use crate::number::{num_lt, NumView, Number};
use crate::text::{debug_str, debug_text, dec_chars, texts};
use crate::textmap::{key_lt, lookup, TextMap};

verus! {

broadcast use crate::json::group_json_view;

/// A schema: any value, a boolean, a number in an optional range, a
/// string, one of fixed strings, an array of one schema, or an object with
/// named fields.
#[derive(Debug)]
pub enum Schema {
    Any,
    Bool,
    Num { min: Option<Number>, max: Option<Number> },
    Str,
    /// One of a fixed set of strings.
    Choice(Vec<String>),
    Arr(Box<Schema>),
    Obj(Vec<Field>),
}

/// A named object field and its schema.
#[derive(Debug)]
pub struct Field {
    pub name: String,
    pub schema: Schema,
    pub required: bool,
}

/// The name a schema goes by in prompts.
pub open spec fn schema_name(s: Schema) -> Seq<char> {
    match s {
        Schema::Any => "any"@,
        Schema::Bool => "bool"@,
        Schema::Num { .. } => "number"@,
        Schema::Str => "string"@,
        Schema::Choice(_) => "choice"@,
        Schema::Arr(_) => "array"@,
        Schema::Obj(_) => "object"@,
    }
}

impl Schema {
    /// Any number.
    pub fn num() -> (r: Schema)
        ensures
            r == (Schema::Num { min: None, max: None }),
    {
        Schema::Num { min: None, max: None }
    }

    /// A number from `min` to `max`, both included.
    pub fn num_range(min: Number, max: Number) -> (r: Schema)
        ensures
            r == (Schema::Num { min: Some(min), max: Some(max) }),
    {
        Schema::Num { min: Some(min), max: Some(max) }
    }

    /// One of the given strings.
    pub fn choice(opts: &[&str]) -> (r: Schema)
        ensures
            r matches Schema::Choice(v) && crate::text::texts(v@) == opts@.map_values(
                |o: &str| o@,
            ),
    {
        let mut v: Vec<String> = Vec::new();
        let mut i: usize = 0;
        while i < opts.len()
            invariant
                i <= opts@.len(),
                crate::text::texts(v@) == opts@.map_values(|o: &str| o@).take(i as int),
            decreases opts@.len() - i,
        {
            let ghost before = v@;
            v.push(String::from_str(opts[i]));
            assert(crate::text::texts(v@) =~= crate::text::texts(before).push(opts@[i as int]@));
            assert(opts@.map_values(|o: &str| o@).take(i + 1) =~= opts@.map_values(
                |o: &str| o@,
            ).take(i as int).push(opts@[i as int]@));
            i = i + 1;
        }
        assert(opts@.map_values(|o: &str| o@).take(opts@.len() as int) =~= opts@.map_values(
            |o: &str| o@,
        ));
        Schema::Choice(v)
    }

    /// An object with the given fields, in order.
    pub fn obj(fields: Vec<Field>) -> (r: Schema)
        ensures
            r == Schema::Obj(fields),
    {
        Schema::Obj(fields)
    }

    /// The name this schema goes by in prompts.
    pub fn name(&self) -> (r: &'static str)
        ensures
            r@ == schema_name(*self),
    {
        match self {
            Schema::Any => "any",
            Schema::Bool => "bool",
            Schema::Num { .. } => "number",
            Schema::Str => "string",
            Schema::Choice(_) => "choice",
            Schema::Arr(_) => "array",
            Schema::Obj(_) => "object",
        }
    }
}

impl Field {
    /// A required field.
    pub fn req(name: &str, schema: Schema) -> (r: Field)
        ensures
            r.name@ == name@,
            r.schema == schema,
            r.required,
    {
        Field { name: String::from_str(name), schema, required: true }
    }

    /// An optional field.
    pub fn opt(name: &str, schema: Schema) -> (r: Field)
        ensures
            r.name@ == name@,
            r.schema == schema,
            !r.required,
    {
        Field { name: String::from_str(name), schema, required: false }
    }
}

// ---------------------------------------------------------------------------
// Schemas as plain values
// ---------------------------------------------------------------------------

pub enum SchemaView {
    Any,
    Bool,
    Num { min: Option<NumView>, max: Option<NumView> },
    Str,
    Choice(Seq<Seq<char>>),
    Arr(Box<SchemaView>),
    Obj(Seq<FieldView>),
}

pub struct FieldView {
    pub name: Seq<char>,
    pub schema: SchemaView,
    pub required: bool,
}

pub open spec fn schema_view(s: Schema) -> SchemaView
    decreases s, 1nat,
{
    match s {
        Schema::Any => SchemaView::Any,
        Schema::Bool => SchemaView::Bool,
        Schema::Num { min, max } => SchemaView::Num {
            min: crate::check::opt_num(min),
            max: crate::check::opt_num(max),
        },
        Schema::Str => SchemaView::Str,
        Schema::Choice(opts) => SchemaView::Choice(crate::text::texts(opts@)),
        Schema::Arr(inner) => SchemaView::Arr(Box::new(schema_view(*inner))),
        Schema::Obj(fields) => {
            proof {
                assert(decreases_to!(s => fields));
                assert(decreases_to!(fields => fields@));
            }
            SchemaView::Obj(field_views(fields@))
        },
    }
}

pub open spec fn field_views(fs: Seq<Field>) -> Seq<FieldView>
    decreases fs, 0nat,
{
    if fs.len() == 0 {
        Seq::empty()
    } else {
        proof {
            assert(decreases_to!(fs => fs[fs.len() - 1]));
            assert(decreases_to!(fs[fs.len() - 1] => fs[fs.len() - 1].schema));
        }
        field_views(fs.drop_last()).push(
            FieldView {
                name: fs.last().name@,
                schema: schema_view(fs.last().schema),
                required: fs.last().required,
            },
        )
    }
}

// ---------------------------------------------------------------------------
// Reading the JSON Schema subset
// ---------------------------------------------------------------------------

pub type Members = Seq<(Seq<char>, JsonView)>;

/// Keywords that describe a schema without constraining it.
pub open spec fn is_metadata(k: Seq<char>) -> bool {
    k == "$schema"@ || k == "$id"@ || k == "title"@ || k == "description"@
}

/// The first key from `i` on that is neither metadata nor allowed.
pub open spec fn first_unknown(m: Members, allowed: Seq<Seq<char>>, i: int) -> Option<Seq<char>>
    decreases m.len() - i,
{
    if i < 0 || i >= m.len() {
        None
    } else if !is_metadata(m[i].0) && !allowed.contains(m[i].0) {
        Some(m[i].0)
    } else {
        first_unknown(m, allowed, i + 1)
    }
}

/// A schema error as plain values: path and message.
pub type SchemaFault = (Seq<char>, Seq<char>);

pub open spec fn unknown_fault(path: Seq<char>, key: Seq<char>) -> SchemaFault {
    (
        path + "."@ + key,
        "unsupported keyword; Digest refuses to ignore constraints silently"@,
    )
}

/// Whether every key of `m` is metadata.
pub open spec fn only_metadata(m: Members) -> bool {
    forall|i: int| 0 <= i < m.len() ==> is_metadata(#[trigger] m[i].0)
}

/// The string choices of an enum from item `i` on, or the fault.
pub open spec fn enum_choices(items: Seq<JsonView>, path: Seq<char>, i: int, acc: Seq<Seq<char>>) -> Result<
    Seq<Seq<char>>,
    SchemaFault,
>
    decreases items.len() - i,
{
    if i < 0 || i >= items.len() {
        Ok(acc)
    } else {
        match items[i] {
            JsonView::Str(s) => enum_choices(items, path, i + 1, acc.push(s)),
            _ => Err(
                (
                    path + ".enum["@ + dec_chars(i as nat) + "]"@,
                    "Digest currently supports string enum values only"@,
                ),
            ),
        }
    }
}

/// The names of `required`, each once, from item `i` on, or the fault.
pub open spec fn required_names(items: Seq<JsonView>, path: Seq<char>, i: int, acc: Seq<Seq<char>>) -> Result<
    Seq<Seq<char>>,
    SchemaFault,
>
    decreases items.len() - i,
{
    if i < 0 || i >= items.len() {
        Ok(acc)
    } else {
        match items[i] {
            JsonView::Str(s) => if acc.contains(s) {
                Err(
                    (
                        path + ".required["@ + dec_chars(i as nat) + "]"@,
                        "duplicate property "@ + debug_text(s),
                    ),
                )
            } else {
                required_names(items, path, i + 1, acc.push(s))
            },
            _ => Err(
                (
                    path + ".required["@ + dec_chars(i as nat) + "]"@,
                    "expected a property name"@,
                ),
            ),
        }
    }
}

/// The `required` list: absent means none.
pub open spec fn required_spec(r: Option<JsonView>, path: Seq<char>) -> Result<
    Seq<Seq<char>>,
    SchemaFault,
> {
    match r {
        None => Ok(Seq::empty()),
        Some(JsonView::Arr(items)) => required_names(items, path, 0, Seq::empty()),
        Some(_) => Err((path + ".required"@, "expected an array"@)),
    }
}

/// The names `props` does not declare, in order.
pub open spec fn missing_names(names: Seq<Seq<char>>, props: Members) -> Seq<Seq<char>>
    decreases names.len(),
{
    if names.len() == 0 {
        Seq::empty()
    } else {
        let m = missing_names(names.drop_last(), props);
        if lookup(props, names.last()) is None {
            m.push(names.last())
        } else {
            m
        }
    }
}

/// The first required name, in byte order of names, that `props` does not
/// declare.
pub open spec fn first_undeclared(names: Seq<Seq<char>>, props: Members) -> Option<Seq<char>> {
    let missing = missing_names(names, props);
    if missing.len() == 0 {
        None
    } else {
        Some(least_key(missing))
    }
}

/// The least of a non-empty list of names in byte order.
pub open spec fn least_key(names: Seq<Seq<char>>) -> Seq<char>
    decreases names.len(),
{
    if names.len() <= 1 {
        names[0]
    } else {
        let rest = least_key(names.drop_last());
        if key_lt(names.last(), rest) {
            names.last()
        } else {
            rest
        }
    }
}

/// A finite number bound, if given.
pub open spec fn bound_spec(b: Option<JsonView>, path: Seq<char>) -> Result<Option<NumView>, SchemaFault> {
    match b {
        None => Ok(None),
        Some(JsonView::Num(n)) => Ok(Some(n)),
        Some(_) => Err((path, "expected a number"@)),
    }
}

/// A property name that answer paths can address.
pub open spec fn addressable(name: Seq<char>) -> bool {
    name.len() > 0 && !name.contains('.') && !name.contains('[')
}

pub proof fn lemma_member_smaller(v: JsonView, m: Members, k: Seq<char>)
    requires
        v == JsonView::Obj(m),
        lookup(m, k) is Some,
    ensures
        decreases_to!(v => lookup(m, k)->Some_0),
{
    crate::textmap::lemma_lookup_member(m, k);
    let x = lookup(m, k)->Some_0;
    let j = choose|j: int| 0 <= j < m.len() && #[trigger] m[j].1 == x;
    assert(decreases_to!(v => v->Obj_0));
    assert(v->Obj_0 == m);
    assert(decreases_to!(m => m[j]));
    assert(decreases_to!(m[j] => m[j].1));
}

/// The schema a JSON Schema document in the supported subset describes, or
/// the first fault found in it.
pub open spec fn schema_spec(v: JsonView, path: Seq<char>) -> Result<SchemaView, SchemaFault>
    decreases v, 0nat,
{
    match v {
        JsonView::Obj(m) => if only_metadata(m) {
            Ok(SchemaView::Any)
        } else if lookup(m, "enum"@) is Some {
            match first_unknown(m, seq!["enum"@, "type"@], 0) {
                Some(k) => Err(unknown_fault(path, k)),
                None => {
                    let type_ok: Result<(), SchemaFault> = match lookup(m, "type"@) {
                        Some(JsonView::Str(t)) => if t == "string"@ {
                            Ok(())
                        } else {
                            Err(
                                (
                                    path + ".type"@,
                                    "string enum cannot declare type "@ + debug_text(t),
                                ),
                            )
                        },
                        Some(_) => Err((path + ".type"@, "expected a string"@)),
                        None => Ok(()),
                    };
                    match type_ok {
                        Err(e) => Err(e),
                        Ok(_) => match lookup(m, "enum"@) {
                            Some(JsonView::Arr(items)) => if items.len() == 0 {
                                Err((path + ".enum"@, "expected at least one choice"@))
                            } else {
                                match enum_choices(items, path, 0, Seq::empty()) {
                                    Ok(c) => Ok(SchemaView::Choice(c)),
                                    Err(e) => Err(e),
                                }
                            },
                            _ => Err((path + ".enum"@, "expected an array"@)),
                        },
                    }
                },
            }
        } else {
            match lookup(m, "type"@) {
                None => Err((path, "missing `type` or `enum`"@)),
                Some(JsonView::Str(t)) => if t == "string"@ || t == "boolean"@ {
                    match first_unknown(m, seq!["type"@], 0) {
                        Some(k) => Err(unknown_fault(path, k)),
                        None => Ok(
                            if t == "string"@ {
                                SchemaView::Str
                            } else {
                                SchemaView::Bool
                            },
                        ),
                    }
                } else if t == "number"@ {
                    match first_unknown(m, seq!["type"@, "minimum"@, "maximum"@], 0) {
                        Some(k) => Err(unknown_fault(path, k)),
                        None => match bound_spec(lookup(m, "minimum"@), path + ".minimum"@) {
                            Err(e) => Err(e),
                            Ok(min) => match bound_spec(lookup(m, "maximum"@), path + ".maximum"@) {
                                Err(e) => Err(e),
                                Ok(max) => if min is Some && max is Some && num_lt(
                                    max->Some_0,
                                    min->Some_0,
                                ) {
                                    Err((path, "`minimum` cannot exceed `maximum`"@))
                                } else {
                                    Ok(SchemaView::Num { min, max })
                                },
                            },
                        },
                    }
                } else if t == "array"@ {
                    match first_unknown(m, seq!["type"@, "items"@], 0) {
                        Some(k) => Err(unknown_fault(path, k)),
                        None => match lookup(m, "items"@) {
                            None => Err((path, "array schema is missing `items`"@)),
                            Some(items) => {
                                proof {
                                    lemma_member_smaller(v, m, "items"@);
                                }
                                match schema_spec(items, path + ".items"@) {
                                    Ok(s) => Ok(SchemaView::Arr(Box::new(s))),
                                    Err(e) => Err(e),
                                }
                            },
                        },
                    }
                } else if t == "object"@ {
                    match first_unknown(m, seq!["type"@, "properties"@, "required"@], 0) {
                        Some(k) => Err(unknown_fault(path, k)),
                        None => match lookup(m, "properties"@) {
                            None => Err((path, "object schema is missing `properties`"@)),
                            Some(JsonView::Obj(pm)) => match required_spec(
                                lookup(m, "required"@),
                                path,
                            ) {
                                Err(e) => Err(e),
                                Ok(required) => match first_undeclared(required, pm) {
                                    Some(n) => Err(
                                        (
                                            path + ".required"@,
                                            debug_text(n) + " is not declared in `properties`"@,
                                        ),
                                    ),
                                    None => {
                                        proof {
                                            lemma_member_smaller(v, m, "properties"@);
                                            assert(decreases_to!(
                                                lookup(m, "properties"@)->Some_0 => pm
                                            ));
                                        }
                                        match props_spec(pm, required, path, 0, Seq::empty()) {
                                            Ok(fs) => Ok(SchemaView::Obj(fs)),
                                            Err(e) => Err(e),
                                        }
                                    },
                                },
                            },
                            Some(_) => Err((path + ".properties"@, "expected an object"@)),
                        },
                    }
                } else {
                    Err((path + ".type"@, "unsupported type "@ + debug_text(t)))
                },
                Some(_) => Err((path + ".type"@, "expected a string"@)),
            }
        },
        _ => Err((path, "expected a JSON object"@)),
    }
}

/// The declared properties from `i` on, in key order, after the fields
/// `acc`.
pub open spec fn props_spec(
    pm: Members,
    required: Seq<Seq<char>>,
    path: Seq<char>,
    i: int,
    acc: Seq<FieldView>,
) -> Result<Seq<FieldView>, SchemaFault>
    decreases pm, pm.len() - i + 1,
{
    if i < 0 || i >= pm.len() {
        Ok(acc)
    } else {
        let name = pm[i].0;
        if !addressable(name) {
            Err(
                (
                    path + ".properties"@,
                    "property name "@ + debug_text(name)
                        + " cannot be represented by the POC answer-path syntax"@,
                ),
            )
        } else {
            proof {
                assert(decreases_to!(pm => pm[i]));
                assert(decreases_to!(pm[i] => pm[i].1));
            }
            match schema_spec(pm[i].1, path + ".properties."@ + name) {
                Err(e) => Err(e),
                Ok(s) => props_spec(
                    pm,
                    required,
                    path,
                    i + 1,
                    acc.push(FieldView { name, schema: s, required: required.contains(name) }),
                ),
            }
        }
    }
}

/// A JSON Schema document in the supported subset, read as a schema: parse
/// failures are reported at `$`, everything else from `$schema` on.
pub open spec fn from_json_schema_spec(raw: Seq<char>) -> Result<SchemaView, SchemaFault> {
    match crate::json::p_document(raw) {
        Err((at, msg)) => Err(
            ("$"@, "parse error at byte "@ + dec_chars(at as nat) + ": "@ + msg),
        ),
        Ok(v) => schema_spec(v, "$schema"@),
    }
}

// ---------------------------------------------------------------------------
// The reader
// ---------------------------------------------------------------------------

fn is_metadata_exec(k: &str) -> (r: bool)
    ensures
        r == is_metadata(k@),
{
    str_eq(k, "$schema") || str_eq(k, "$id") || str_eq(k, "title") || str_eq(k, "description")
}

fn keys(a: &str, b: &str, c: &str, n: usize) -> (r: Vec<String>)
    requires
        1 <= n <= 3,
    ensures
        texts(r@) == if n == 1 {
            seq![a@]
        } else if n == 2 {
            seq![a@, b@]
        } else {
            seq![a@, b@, c@]
        },
{
    let mut v: Vec<String> = Vec::new();
    v.push(String::from_str(a));
    if n >= 2 {
        v.push(String::from_str(b));
    }
    if n >= 3 {
        v.push(String::from_str(c));
    }
    proof {
        if n == 1 {
            assert(texts(v@) =~= seq![a@]);
        } else if n == 2 {
            assert(texts(v@) =~= seq![a@, b@]);
        } else {
            assert(texts(v@) =~= seq![a@, b@, c@]);
        }
    }
    v
}

fn contains_string(v: &Vec<String>, s: &str) -> (r: bool)
    ensures
        r == texts(v@).contains(s@),
{
    let mut i: usize = 0;
    while i < v.len()
        invariant
            i <= v@.len(),
            forall|k: int| 0 <= k < i ==> texts(v@)[k] != s@,
        decreases v@.len() - i,
    {
        if str_eq(v[i].as_str(), s) {
            assert(texts(v@)[i as int] == s@);
            return true;
        }
        i = i + 1;
    }
    false
}

fn first_unknown_exec(m: &TextMap<Value>, allowed: &Vec<String>) -> (r: Option<String>)
    ensures
        match first_unknown(member_views(m.entries()), texts(allowed@), 0) {
            Some(k) => r matches Some(s) && s@ == k,
            None => r is None,
        },
{
    let ghost mv = member_views(m.entries());
    let mut i: usize = 0;
    while i < m.len()
        invariant
            i <= m.entries().len(),
            mv == member_views(m.entries()),
            first_unknown(mv, texts(allowed@), 0) == first_unknown(mv, texts(allowed@), i as int),
        decreases m.entries().len() - i,
    {
        let (k, _) = m.entry(i);
        if !is_metadata_exec(k.as_str()) && !contains_string(allowed, k.as_str()) {
            return Some(k.clone());
        }
        i = i + 1;
    }
    None
}

fn only_metadata_exec(m: &TextMap<Value>) -> (r: bool)
    ensures
        r == only_metadata(member_views(m.entries())),
{
    let ghost mv = member_views(m.entries());
    let mut i: usize = 0;
    while i < m.len()
        invariant
            i <= m.entries().len(),
            mv == member_views(m.entries()),
            forall|k: int| 0 <= k < i ==> is_metadata(#[trigger] mv[k].0),
        decreases m.entries().len() - i,
    {
        let (k, _) = m.entry(i);
        if !is_metadata_exec(k.as_str()) {
            assert(!is_metadata(mv[i as int].0));
            return false;
        }
        i = i + 1;
    }
    true
}

fn fault(path: &String, suffix: &str, message: String) -> (e: SchemaError)
    ensures
        e.path@ == path@ + suffix@,
        e.message == message,
{
    let mut p = path.clone();
    p.append(suffix);
    SchemaError { path: p, message }
}

fn unknown_error(path: &String, key: &String) -> (e: SchemaError)
    ensures
        (e.path@, e.message@) == unknown_fault(path@, key@),
{
    let mut p = path.clone();
    p.append(".");
    p.append(key.as_str());
    SchemaError {
        path: p,
        message: String::from_str(
            "unsupported keyword; Digest refuses to ignore constraints silently",
        ),
    }
}

/// The result of reading a schema agrees with the plain-value reading.
pub open spec fn read_as(r: Result<Schema, SchemaError>, s: Result<SchemaView, SchemaFault>) -> bool {
    match s {
        Ok(v) => r matches Ok(x) && schema_view(x) == v,
        Err((p, msg)) => r matches Err(e) && e.path@ == p && e.message@ == msg,
    }
}

fn index_suffix(path: &String, label: &str, i: usize) -> (r: String)
    ensures
        r@ == path@ + label@ + dec_chars(i as nat) + "]"@,
{
    let mut p = path.clone();
    p.append(label);
    p.append(crate::text::usize_to_string(i).as_str());
    p.append("]");
    p
}

fn enum_choices_exec(items: &Vec<Value>, path: &String) -> (r: Result<Vec<String>, SchemaError>)
    ensures
        match enum_choices(item_views(items@), path@, 0, Seq::empty()) {
            Ok(c) => r matches Ok(v) && texts(v@) == c,
            Err((p, msg)) => r matches Err(e) && e.path@ == p && e.message@ == msg,
        },
{
    let ghost iv = item_views(items@);
    let mut strings: Vec<String> = Vec::new();
    let mut i: usize = 0;
    assert(texts(strings@) =~= Seq::<Seq<char>>::empty());
    while i < items.len()
        invariant
            i <= items@.len(),
            iv == item_views(items@),
            enum_choices(iv, path@, 0, Seq::empty()) == enum_choices(
                iv,
                path@,
                i as int,
                texts(strings@),
            ),
        decreases items@.len() - i,
    {
        match &items[i] {
            Value::Str(s) => {
                let ghost before = strings@;
                strings.push(s.clone());
                assert(texts(strings@) =~= texts(before).push(s@));
            },
            _ => {
                let p = index_suffix(path, ".enum[", i);
                return Err(
                    SchemaError {
                        path: p,
                        message: String::from_str(
                            "Digest currently supports string enum values only",
                        ),
                    },
                );
            },
        }
        i = i + 1;
    }
    Ok(strings)
}

fn required_names_exec(items: &Vec<Value>, path: &String) -> (r: Result<Vec<String>, SchemaError>)
    ensures
        match required_names(item_views(items@), path@, 0, Seq::empty()) {
            Ok(c) => r matches Ok(v) && texts(v@) == c,
            Err((p, msg)) => r matches Err(e) && e.path@ == p && e.message@ == msg,
        },
{
    let ghost iv = item_views(items@);
    let mut names: Vec<String> = Vec::new();
    let mut i: usize = 0;
    assert(texts(names@) =~= Seq::<Seq<char>>::empty());
    while i < items.len()
        invariant
            i <= items@.len(),
            iv == item_views(items@),
            required_names(iv, path@, 0, Seq::empty()) == required_names(
                iv,
                path@,
                i as int,
                texts(names@),
            ),
        decreases items@.len() - i,
    {
        match &items[i] {
            Value::Str(s) => {
                if contains_string(&names, s.as_str()) {
                    let p = index_suffix(path, ".required[", i);
                    let mut msg = String::from_str("duplicate property ");
                    msg.append(debug_str(s.as_str()).as_str());
                    return Err(SchemaError { path: p, message: msg });
                }
                let ghost before = names@;
                names.push(s.clone());
                assert(texts(names@) =~= texts(before).push(s@));
            },
            _ => {
                let p = index_suffix(path, ".required[", i);
                return Err(
                    SchemaError { path: p, message: String::from_str("expected a property name") },
                );
            },
        }
        i = i + 1;
    }
    Ok(names)
}

fn enum_schema(m: &TextMap<Value>, path: &String) -> (r: Result<Schema, SchemaError>)
    requires
        lookup(member_views(m.entries()), "enum"@) is Some,
    ensures
        ({
            let mv = member_views(m.entries());
            read_as(
                r,
                match first_unknown(mv, seq!["enum"@, "type"@], 0) {
                    Some(k) => Err(unknown_fault(path@, k)),
                    None => {
                        let type_ok: Result<(), SchemaFault> = match lookup(mv, "type"@) {
                            Some(JsonView::Str(t)) => if t == "string"@ {
                                Ok(())
                            } else {
                                Err(
                                    (
                                        path@ + ".type"@,
                                        "string enum cannot declare type "@ + debug_text(t),
                                    ),
                                )
                            },
                            Some(_) => Err((path@ + ".type"@, "expected a string"@)),
                            None => Ok(()),
                        };
                        match type_ok {
                            Err(e) => Err(e),
                            Ok(_) => match lookup(mv, "enum"@) {
                                Some(JsonView::Arr(items)) => if items.len() == 0 {
                                    Err((path@ + ".enum"@, "expected at least one choice"@))
                                } else {
                                    match enum_choices(items, path@, 0, Seq::empty()) {
                                        Ok(c) => Ok(SchemaView::Choice(c)),
                                        Err(e) => Err(e),
                                    }
                                },
                                _ => Err((path@ + ".enum"@, "expected an array"@)),
                            },
                        }
                    },
                },
            )
        }),
{
    let allowed = keys("enum", "type", "", 2);
    if let Some(k) = first_unknown_exec(m, &allowed) {
        return Err(unknown_error(path, &k));
    }
    proof {
        crate::json::lemma_member_views_lookup(m.entries(), "type"@);
        crate::json::lemma_member_views_lookup(m.entries(), "enum"@);
    }
    match m.get("type") {
        Some(Value::Str(t)) => {
            if !str_eq(t.as_str(), "string") {
                let mut msg = String::from_str("string enum cannot declare type ");
                msg.append(debug_str(t.as_str()).as_str());
                return Err(fault(path, ".type", msg));
            }
        },
        Some(_) => {
            return Err(fault(path, ".type", String::from_str("expected a string")));
        },
        None => {},
    }
    match m.get("enum") {
        Some(Value::Arr(items)) => {
            if items.len() == 0 {
                return Err(fault(path, ".enum", String::from_str("expected at least one choice")));
            }
            match enum_choices_exec(items, path) {
                Ok(strings) => Ok(Schema::Choice(strings)),
                Err(e) => Err(e),
            }
        },
        _ => Err(fault(path, ".enum", String::from_str("expected an array"))),
    }
}

fn bound_exec(b: Option<&Value>, path: &String, suffix: &str) -> (r: Result<Option<Number>, SchemaError>)
    ensures
        match bound_spec(crate::json::opt_view(opt_ref(b)), path@ + suffix@) {
            Ok(n) => r matches Ok(x) && crate::check::opt_num(x) == n,
            Err((p, msg)) => r matches Err(e) && e.path@ == p && e.message@ == msg,
        },
{
    match b {
        None => Ok(None),
        Some(Value::Num(n)) => Ok(Some(n.duplicate())),
        Some(_) => Err(fault(path, suffix, String::from_str("expected a number"))),
    }
}

pub open spec fn opt_ref(b: Option<&Value>) -> Option<Value> {
    match b {
        Some(v) => Some(*v),
        None => None,
    }
}

fn number_schema(m: &TextMap<Value>, path: &String) -> (r: Result<Schema, SchemaError>)
    ensures
        ({
            let mv = member_views(m.entries());
            read_as(
                r,
                match first_unknown(mv, seq!["type"@, "minimum"@, "maximum"@], 0) {
                    Some(k) => Err(unknown_fault(path@, k)),
                    None => match bound_spec(lookup(mv, "minimum"@), path@ + ".minimum"@) {
                        Err(e) => Err(e),
                        Ok(min) => match bound_spec(lookup(mv, "maximum"@), path@ + ".maximum"@) {
                            Err(e) => Err(e),
                            Ok(max) => if min is Some && max is Some && num_lt(
                                max->Some_0,
                                min->Some_0,
                            ) {
                                Err((path@, "`minimum` cannot exceed `maximum`"@))
                            } else {
                                Ok(SchemaView::Num { min, max })
                            },
                        },
                    },
                },
            )
        }),
{
    let allowed = keys("type", "minimum", "maximum", 3);
    if let Some(k) = first_unknown_exec(m, &allowed) {
        return Err(unknown_error(path, &k));
    }
    proof {
        crate::json::lemma_member_views_lookup(m.entries(), "minimum"@);
        crate::json::lemma_member_views_lookup(m.entries(), "maximum"@);
    }
    let min = match bound_exec(m.get("minimum"), path, ".minimum") {
        Ok(x) => x,
        Err(e) => {
            return Err(e);
        },
    };
    let max = match bound_exec(m.get("maximum"), path, ".maximum") {
        Ok(x) => x,
        Err(e) => {
            return Err(e);
        },
    };
    let inverted = match (&min, &max) {
        (Some(a), Some(b)) => b.lt(a),
        _ => false,
    };
    if inverted {
        return Err(
            SchemaError {
                path: path.clone(),
                message: String::from_str("`minimum` cannot exceed `maximum`"),
            },
        );
    }
    Ok(Schema::Num { min, max })
}

fn required_exec(r: Option<&Value>, path: &String) -> (out: Result<Vec<String>, SchemaError>)
    ensures
        match required_spec(crate::json::opt_view(opt_ref(r)), path@) {
            Ok(names) => out matches Ok(v) && texts(v@) == names,
            Err((p, msg)) => out matches Err(e) && e.path@ == p && e.message@ == msg,
        },
{
    let items = match r {
        None => {
            let v: Vec<String> = Vec::new();
            assert(texts(v@) =~= Seq::<Seq<char>>::empty());
            return Ok(v);
        },
        Some(Value::Arr(items)) => items,
        Some(_) => {
            return Err(fault(path, ".required", String::from_str("expected an array")));
        },
    };
    required_names_exec(items, path)
}

fn first_undeclared_exec(names: &Vec<String>, pm: &TextMap<Value>) -> (r: Option<String>)
    ensures
        match first_undeclared(texts(names@), member_views(pm.entries())) {
            Some(n) => r matches Some(s) && s@ == n,
            None => r is None,
        },
{
    let ghost nv = texts(names@);
    let ghost mv = member_views(pm.entries());
    let mut missing: Vec<String> = Vec::new();
    let mut i: usize = 0;
    assert(nv.take(0) =~= Seq::<Seq<char>>::empty());
    assert(texts(missing@) =~= Seq::<Seq<char>>::empty());
    while i < names.len()
        invariant
            i <= names@.len(),
            nv == texts(names@),
            mv == member_views(pm.entries()),
            texts(missing@) == missing_names(nv.take(i as int), mv),
        decreases names@.len() - i,
    {
        proof {
            let t = nv.take(i + 1);
            assert(t.drop_last() =~= nv.take(i as int));
            assert(t.last() == names@[i as int]@);
            crate::json::lemma_member_views_lookup(pm.entries(), names@[i as int]@);
        }
        if !pm.contains_key(names[i].as_str()) {
            let ghost before = missing@;
            missing.push(names[i].clone());
            assert(texts(missing@) =~= texts(before).push(names@[i as int]@));
        }
        i = i + 1;
    }
    assert(nv.take(names@.len() as int) =~= nv);
    if missing.len() == 0 {
        return None;
    }
    let ghost ms = texts(missing@);
    let mut best: usize = 0;
    let mut j: usize = 1;
    assert(ms.take(1).len() == 1);
    while j < missing.len()
        invariant
            1 <= j <= missing@.len(),
            best < missing@.len(),
            ms == texts(missing@),
            missing@[best as int]@ == least_key(ms.take(j as int)),
        decreases missing@.len() - j,
    {
        proof {
            let t = ms.take(j + 1);
            assert(t.drop_last() =~= ms.take(j as int));
            assert(t.last() == missing@[j as int]@);
        }
        if crate::text::slice_lt(missing[j].as_str().as_bytes(), missing[best].as_str().as_bytes()) {
            best = j;
        }
        j = j + 1;
    }
    assert(ms.take(missing@.len() as int) =~= ms);
    Some(missing[best].clone())
}

/// Reads one schema out of a JSON Schema value.
pub fn schema_from_value(value: &Value, path: &String) -> (r: Result<Schema, SchemaError>)
    ensures
        read_as(r, schema_spec(value@, path@)),
    decreases value, 2nat,
{
    proof {
        reveal_strlit("");
        assert(path@ + ""@ =~= path@);
    }
    let m = match value {
        Value::Obj(m) => m,
        _ => {
            return Err(fault(path, "", String::from_str("expected a JSON object")));
        },
    };
    proof {
        reveal_strlit("");
        assert(path@ + ""@ =~= path@);
    }
    if only_metadata_exec(m) {
        return Ok(Schema::Any);
    }
    proof {
        crate::json::lemma_member_views_lookup(m.entries(), "enum"@);
        crate::json::lemma_member_views_lookup(m.entries(), "type"@);
        crate::json::lemma_member_views_lookup(m.entries(), "items"@);
    }
    if m.contains_key("enum") {
        return enum_schema(m, path);
    }
    let t = match m.get("type") {
        None => {
            return Err(
                SchemaError {
                    path: path.clone(),
                    message: String::from_str("missing `type` or `enum`"),
                },
            );
        },
        Some(Value::Str(t)) => t,
        Some(_) => {
            return Err(fault(path, ".type", String::from_str("expected a string")));
        },
    };
    if str_eq(t.as_str(), "string") || str_eq(t.as_str(), "boolean") {
        let allowed = keys("type", "", "", 1);
        if let Some(k) = first_unknown_exec(m, &allowed) {
            return Err(unknown_error(path, &k));
        }
        if str_eq(t.as_str(), "string") {
            Ok(Schema::Str)
        } else {
            Ok(Schema::Bool)
        }
    } else if str_eq(t.as_str(), "number") {
        number_schema(m, path)
    } else if str_eq(t.as_str(), "array") {
        let allowed = keys("type", "items", "", 2);
        if let Some(k) = first_unknown_exec(m, &allowed) {
            return Err(unknown_error(path, &k));
        }
        match m.get("items") {
            None => Err(
                SchemaError {
                    path: path.clone(),
                    message: String::from_str("array schema is missing `items`"),
                },
            ),
            Some(items) => {
                proof {
                    crate::json::lemma_member_value_smaller(*value, "items"@, *items);
                }
                let mut p = path.clone();
                p.append(".items");
                match schema_from_value(items, &p) {
                    Ok(s) => Ok(Schema::Arr(Box::new(s))),
                    Err(e) => Err(e),
                }
            },
        }
    } else if str_eq(t.as_str(), "object") {
        object_schema(value, path)
    } else {
        let mut msg = String::from_str("unsupported type ");
        msg.append(debug_str(t.as_str()).as_str());
        Err(fault(path, ".type", msg))
    }
}

fn object_schema(value: &Value, path: &String) -> (r: Result<Schema, SchemaError>)
    requires
        value matches Value::Obj(m) && lookup(member_views(m.entries()), "type"@) == Some(
            JsonView::Str("object"@),
        ),
    ensures
        ({
            let mv = member_views(value->Obj_0.entries());
            read_as(
                r,
                match first_unknown(mv, seq!["type"@, "properties"@, "required"@], 0) {
                    Some(k) => Err(unknown_fault(path@, k)),
                    None => match lookup(mv, "properties"@) {
                        None => Err((path@, "object schema is missing `properties`"@)),
                        Some(JsonView::Obj(pm)) => match required_spec(
                            lookup(mv, "required"@),
                            path@,
                        ) {
                            Err(e) => Err(e),
                            Ok(required) => match first_undeclared(required, pm) {
                                Some(n) => Err(
                                    (
                                        path@ + ".required"@,
                                        debug_text(n) + " is not declared in `properties`"@,
                                    ),
                                ),
                                None => match props_spec(pm, required, path@, 0, Seq::empty()) {
                                    Ok(fs) => Ok(SchemaView::Obj(fs)),
                                    Err(e) => Err(e),
                                },
                            },
                        },
                        Some(_) => Err((path@ + ".properties"@, "expected an object"@)),
                    },
                },
            )
        }),
    decreases value, 1nat,
{
    let m = match value {
        Value::Obj(m) => m,
        _ => {
            return Err(fault(path, "", String::from_str("expected a JSON object")));
        },
    };
    let allowed = keys("type", "properties", "required", 3);
    if let Some(k) = first_unknown_exec(m, &allowed) {
        return Err(unknown_error(path, &k));
    }
    proof {
        crate::json::lemma_member_views_lookup(m.entries(), "properties"@);
        crate::json::lemma_member_views_lookup(m.entries(), "required"@);
    }
    let props_value = match m.get("properties") {
        None => {
            return Err(
                SchemaError {
                    path: path.clone(),
                    message: String::from_str("object schema is missing `properties`"),
                },
            );
        },
        Some(p) => p,
    };
    let pm = match props_value {
        Value::Obj(pm) => pm,
        _ => {
            return Err(fault(path, ".properties", String::from_str("expected an object")));
        },
    };
    let required = match required_exec(m.get("required"), path) {
        Ok(r) => r,
        Err(e) => {
            return Err(e);
        },
    };
    if let Some(n) = first_undeclared_exec(&required, pm) {
        let mut msg = debug_str(n.as_str());
        msg.append(" is not declared in `properties`");
        return Err(fault(path, ".required", msg));
    }
    proof {
        crate::json::lemma_member_value_smaller(*value, "properties"@, *props_value);
    }
    match props_exec(props_value, &required, path) {
        Ok(fields) => Ok(Schema::Obj(fields)),
        Err(e) => Err(e),
    }
}

fn props_exec(props_value: &Value, required: &Vec<String>, path: &String) -> (r: Result<
    Vec<Field>,
    SchemaError,
>)
    requires
        props_value is Obj,
    ensures
        match props_spec(
            member_views(props_value->Obj_0.entries()),
            texts(required@),
            path@,
            0,
            Seq::empty(),
        ) {
            Ok(fs) => r matches Ok(v) && field_views(v@) == fs,
            Err((p, msg)) => r matches Err(e) && e.path@ == p && e.message@ == msg,
        },
    decreases props_value, 3nat,
{
    let pm = match props_value {
        Value::Obj(pm) => pm,
        _ => {
            return Err(fault(path, ".properties", String::from_str("expected an object")));
        },
    };
    let ghost pv = member_views(pm.entries());
    let ghost rv = texts(required@);
    let mut fields: Vec<Field> = Vec::new();
    let mut i: usize = 0;
    assert(field_views(fields@) =~= Seq::<FieldView>::empty());
    while i < pm.len()
        invariant
            i <= pm.entries().len(),
            pv == member_views(pm.entries()),
            rv == texts(required@),
            *props_value == Value::Obj(*pm),
            props_spec(pv, rv, path@, 0, Seq::empty()) == props_spec(
                pv,
                rv,
                path@,
                i as int,
                field_views(fields@),
            ),
        decreases pm.entries().len() - i,
    {
        let (name, property) = pm.entry(i);
        let nc = crate::text::chars_of(name.as_str());
        let addressable_name = nc.len() > 0 && crate::number::find_char_exec(nc.as_slice(), '.')
            == nc.len() && crate::number::find_char_exec(nc.as_slice(), '[') == nc.len();
        proof {
            crate::number::lemma_find_char_contains(nc@, '.');
            crate::number::lemma_find_char_contains(nc@, '[');
        }
        if !addressable_name {
            let mut msg = String::from_str("property name ");
            msg.append(debug_str(name.as_str()).as_str());
            msg.append(" cannot be represented by the POC answer-path syntax");
            return Err(fault(path, ".properties", msg));
        }
        proof {
            crate::json::lemma_entry_value_smaller(*props_value, i as int);
        }
        let mut p = path.clone();
        p.append(".properties.");
        p.append(name.as_str());
        let s = match schema_from_value(property, &p) {
            Ok(s) => s,
            Err(e) => {
                return Err(e);
            },
        };
        let req = contains_string(required, name.as_str());
        let ghost before = fields@;
        let ghost sv = schema_view(s);
        fields.push(Field { name: name.clone(), schema: s, required: req });
        assert(fields@.drop_last() == before);
        assert(field_views(fields@) =~= field_views(before).push(
            FieldView { name: name@, schema: sv, required: req },
        ));
        i = i + 1;
    }
    Ok(fields)
}

impl Schema {
    /// Reads the JSON Schema subset: `string`, `number` with
    /// `minimum`/`maximum`, `boolean`, arrays with `items`, objects with
    /// `properties`/`required`, and string `enum`s; `{}` means any value.
    /// Unsupported keywords are refused, never silently ignored.
    pub fn from_json_schema(raw: &str) -> (r: Result<Schema, SchemaError>)
        ensures
            read_as(r, from_json_schema_spec(raw@)),
    {
        match crate::json::parse(raw) {
            Err(e) => {
                let msg = e.to_string();
                Err(SchemaError { path: String::from_str("$"), message: msg })
            },
            Ok(v) => {
                let p = String::from_str("$schema");
                schema_from_value(&v, &p)
            },
        }
    }
}

// ---------------------------------------------------------------------------
// Required fields are the listed ones
// ---------------------------------------------------------------------------

proof fn lemma_required_names(items: Seq<JsonView>, path: Seq<char>, i: int, acc: Seq<Seq<char>>)
    requires
        0 <= i,
    ensures
        required_names(items, path, i, acc) matches Ok(names) ==> forall|n: Seq<char>|
            #[trigger] names.contains(n) <==> acc.contains(n) || exists|j: int|
                i <= j < items.len() && items[j] == JsonView::Str(n),
    decreases items.len() - i,
{
    if i < items.len() {
        if let JsonView::Str(x) = items[i] {
            if !acc.contains(x) {
                lemma_required_names(items, path, i + 1, acc.push(x));
                if let Ok(names) = required_names(items, path, i, acc) {
                    assert forall|n: Seq<char>| #[trigger] names.contains(n) <==> acc.contains(n)
                        || exists|j: int| i <= j < items.len() && items[j] == JsonView::Str(n) by {
                        if acc.push(x).contains(n) && !acc.contains(n) {
                            let q = choose|q: int| 0 <= q < acc.push(x).len() && acc.push(x)[q] == n;
                            if q < acc.len() {
                                assert(acc[q] == n);
                            }
                            assert(items[i] == JsonView::Str(n));
                        }
                        if acc.contains(n) {
                            let q = choose|q: int| 0 <= q < acc.len() && acc[q] == n;
                            assert(acc.push(x)[q] == n);
                        }
                        if exists|j: int| i <= j < items.len() && items[j] == JsonView::Str(n) {
                            let j = choose|j: int| i <= j < items.len() && items[j] == JsonView::Str(n);
                            if j == i {
                                assert(acc.push(x)[acc.len() as int] == n);
                            }
                        }
                    }
                }
            }
        }
    }
}

proof fn lemma_props(
    pm: Members,
    required: Seq<Seq<char>>,
    path: Seq<char>,
    i: int,
    acc: Seq<FieldView>,
)
    requires
        0 <= i <= pm.len(),
    ensures
        props_spec(pm, required, path, i, acc) matches Ok(fs) ==> fs.len() == acc.len() + pm.len()
            - i && (forall|k: int| 0 <= k < acc.len() ==> #[trigger] fs[k] == acc[k]) && (forall|
            k: int,
        |
            acc.len() <= k < fs.len() ==> (#[trigger] fs[k]).name == pm[i + k - acc.len()].0
                && fs[k].required == required.contains(fs[k].name)),
    decreases pm.len() - i,
{
    if i < pm.len() && addressable(pm[i].0) {
        if let Ok(sch) = schema_spec(pm[i].1, path + ".properties."@ + pm[i].0) {
            let f = FieldView { name: pm[i].0, schema: sch, required: required.contains(pm[i].0) };
            lemma_props(pm, required, path, i + 1, acc.push(f));
            if let Ok(fs) = props_spec(pm, required, path, i, acc) {
                assert forall|k: int| 0 <= k < acc.len() implies #[trigger] fs[k] == acc[k] by {
                    assert(acc.push(f)[k] == acc[k]);
                }
                assert(fs[acc.len() as int] == f);
            }
        }
    }
}

/// A property of an object schema is a required field exactly when its
/// name is listed in the schema's `required` array: reading an object
/// schema gives one field per declared property, in order, each required
/// or optional as the document says.
pub proof fn law_required_fields_are_the_listed_ones(m: Members, path: Seq<char>, k: int)
    requires
        schema_spec(JsonView::Obj(m), path) matches Ok(SchemaView::Obj(fs)) && 0 <= k < fs.len(),
    ensures
        ({
            let fs = schema_spec(JsonView::Obj(m), path)->Ok_0->Obj_0;
            &&& lookup(m, "properties"@) matches Some(JsonView::Obj(pm)) && fs.len() == pm.len()
                && fs[k].name == pm[k].0
            &&& fs[k].required <==> (lookup(m, "required"@) matches Some(JsonView::Arr(items))
                && items.contains(JsonView::Str(fs[k].name)))
        }),
{
    let fs = schema_spec(JsonView::Obj(m), path)->Ok_0->Obj_0;
    let pm = lookup(m, "properties"@)->Some_0->Obj_0;
    let required = required_spec(lookup(m, "required"@), path)->Ok_0;
    lemma_props(pm, required, path, 0, Seq::empty());
    let name = fs[k].name;
    match lookup(m, "required"@) {
        Some(JsonView::Arr(items)) => {
            lemma_required_names(items, path, 0, Seq::empty());
            if items.contains(JsonView::Str(name)) {
                let j = choose|j: int| 0 <= j < items.len() && items[j] == JsonView::Str(name);
                assert(required.contains(name));
            }
            if required.contains(name) {
                let j = choose|j: int| 0 <= j < items.len() && items[j] == JsonView::Str(name);
                assert(items.contains(JsonView::Str(name)));
            }
        },
        _ => {},
    }
}

} // verus!
