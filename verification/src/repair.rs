//! The named repair passes: heuristic scanners over the text of model
//! output, each aware of double-quoted strings so that string contents are
//! never touched.

use vstd::prelude::*;

use crate::text::{is_ascii_space, is_white_space, white_space};

verus! {

// ---------------------------------------------------------------------------
// Scanning
// ---------------------------------------------------------------------------

pub open spec fn is_open_bracket(c: char) -> bool {
    c == '{' || c == '['
}

pub open spec fn is_close_bracket(c: char) -> bool {
    c == '}' || c == ']'
}

/// The first position at or after `i` holding `{` or `[`.
pub open spec fn find_open(s: Seq<char>, i: int) -> Option<int>
    decreases s.len() - i,
{
    if i < 0 || i >= s.len() {
        None
    } else if is_open_bracket(s[i]) {
        Some(i)
    } else {
        find_open(s, i + 1)
    }
}

/// The position just after the bracket that closes a span, scanning from
/// `i` with the string state and nesting depth reached so far. Inside a
/// string a backslash skips the next character; outside strings, brackets
/// nest and a closing bracket that returns the depth to zero ends the span.
/// `None` when the text ends first.
pub open spec fn close_from(s: Seq<char>, i: int, in_str: bool, depth: nat) -> Option<int>
    decreases s.len() - i,
{
    if i < 0 || i >= s.len() {
        None
    } else {
        let c = s[i];
        if in_str {
            if c == '\\' {
                if i + 1 >= s.len() {
                    None
                } else {
                    close_from(s, i + 2, true, depth)
                }
            } else if c == '"' {
                close_from(s, i + 1, false, depth)
            } else {
                close_from(s, i + 1, true, depth)
            }
        } else if c == '"' {
            close_from(s, i + 1, true, depth)
        } else if is_open_bracket(c) {
            close_from(s, i + 1, false, depth + 1)
        } else if is_close_bracket(c) {
            if depth <= 1 {
                Some(i + 1)
            } else {
                close_from(s, i + 1, false, (depth - 1) as nat)
            }
        } else {
            close_from(s, i + 1, false, depth)
        }
    }
}

/// The end of the balanced span that opens at `open`.
pub open spec fn span_end(s: Seq<char>, open: int) -> Option<int> {
    close_from(s, open, false, 0)
}

proof fn lemma_close_from_bounds(s: Seq<char>, i: int, in_str: bool, depth: nat)
    ensures
        close_from(s, i, in_str, depth) matches Some(e) ==> i < e <= s.len(),
    decreases s.len() - i,
{
    if 0 <= i < s.len() {
        let c = s[i];
        if in_str {
            if c == '\\' {
                if i + 1 < s.len() {
                    lemma_close_from_bounds(s, i + 2, true, depth);
                }
            } else if c == '"' {
                lemma_close_from_bounds(s, i + 1, false, depth);
            } else {
                lemma_close_from_bounds(s, i + 1, true, depth);
            }
        } else if c == '"' {
            lemma_close_from_bounds(s, i + 1, true, depth);
        } else if is_open_bracket(c) {
            lemma_close_from_bounds(s, i + 1, false, depth + 1);
        } else if is_close_bracket(c) {
            if depth > 1 {
                lemma_close_from_bounds(s, i + 1, false, (depth - 1) as nat);
            }
        } else {
            lemma_close_from_bounds(s, i + 1, false, depth);
        }
    }
}

proof fn lemma_find_open_bounds(s: Seq<char>, i: int)
    ensures
        find_open(s, i) matches Some(o) ==> i <= o < s.len() && is_open_bracket(s[o]),
    decreases s.len() - i,
{
    if 0 <= i < s.len() && !is_open_bracket(s[i]) {
        lemma_find_open_bounds(s, i + 1);
    }
}

pub(crate) fn find_open_exec(s: &[char], from: usize) -> (r: Option<usize>)
    requires
        from <= s@.len(),
    ensures
        r matches Some(o) ==> find_open(s@, from as int) == Some(o as int),
        r is None ==> find_open(s@, from as int) is None,
{
    let mut i = from;
    while i < s.len()
        invariant
            from <= i <= s@.len(),
            find_open(s@, from as int) == find_open(s@, i as int),
        decreases s@.len() - i,
    {
        if s[i] == '{' || s[i] == '[' {
            return Some(i);
        }
        i = i + 1;
    }
    None
}

pub(crate) fn span_end_exec(s: &[char], open: usize) -> (r: Option<usize>)
    requires
        open <= s@.len(),
    ensures
        r matches Some(e) ==> span_end(s@, open as int) == Some(e as int) && open < e <= s@.len(),
        r is None ==> span_end(s@, open as int) is None,
{
    proof {
        lemma_close_from_bounds(s@, open as int, false, 0);
    }
    let mut i = open;
    let mut in_str = false;
    let mut depth: usize = 0;
    while i < s.len()
        invariant
            open <= i,
            depth <= i,
            span_end(s@, open as int) == close_from(s@, i as int, in_str, depth as nat),
        decreases s@.len() - i,
    {
        assert(s@.len() == s.len());
        let c = s[i];
        if in_str {
            if c == '\\' {
                if s.len() - i < 2 {
                    return None;
                }
                i = i + 2;
            } else if c == '"' {
                in_str = false;
                i = i + 1;
            } else {
                i = i + 1;
            }
        } else if c == '"' {
            in_str = true;
            i = i + 1;
        } else if c == '{' || c == '[' {
            depth = depth + 1;
            i = i + 1;
        } else if c == '}' || c == ']' {
            if depth <= 1 {
                return Some(i + 1);
            }
            depth = depth - 1;
            i = i + 1;
        } else {
            i = i + 1;
        }
    }
    None
}

// ---------------------------------------------------------------------------
// Trimming and searching
// ---------------------------------------------------------------------------

/// The number of leading white-space characters.
pub open spec fn lead_ws(s: Seq<char>, i: int) -> int
    decreases s.len() - i,
{
    if 0 <= i < s.len() && is_white_space(s[i]) {
        lead_ws(s, i + 1)
    } else {
        i
    }
}

/// The end of `s.take(j)` once trailing white space is dropped.
pub open spec fn trail_ws(s: Seq<char>, j: int) -> int
    decreases j,
{
    if 0 < j <= s.len() && is_white_space(s[j - 1]) {
        trail_ws(s, j - 1)
    } else {
        j
    }
}

/// `s` without leading or trailing white space (`str::trim`).
pub open spec fn trim(s: Seq<char>) -> Seq<char> {
    let e = trail_ws(s, s.len() as int);
    let b = lead_ws(s, 0);
    if b >= e {
        Seq::empty()
    } else {
        s.subrange(b, e)
    }
}

proof fn lemma_trail_ws(s: Seq<char>, j: int)
    requires
        0 <= j <= s.len(),
    ensures
        0 <= trail_ws(s, j) <= j,
    decreases j,
{
    if 0 < j && is_white_space(s[j - 1]) {
        lemma_trail_ws(s, j - 1);
    }
}

proof fn lemma_lead_ws(s: Seq<char>, i: int)
    requires
        0 <= i <= s.len(),
    ensures
        i <= lead_ws(s, i) <= s.len(),
    decreases s.len() - i,
{
    if i < s.len() && is_white_space(s[i]) {
        lemma_lead_ws(s, i + 1);
    }
}

pub(crate) fn trail_ws_exec(s: &[char]) -> (r: usize)
    ensures
        r == trail_ws(s@, s@.len() as int),
        r <= s@.len(),
{
    let mut j = s.len();
    while j > 0 && white_space(s[j - 1])
        invariant
            j <= s@.len(),
            trail_ws(s@, s@.len() as int) == trail_ws(s@, j as int),
        decreases j,
    {
        j = j - 1;
    }
    j
}

pub(crate) fn lead_ws_exec(s: &[char]) -> (r: usize)
    ensures
        r == lead_ws(s@, 0),
        r <= s@.len(),
{
    let mut i: usize = 0;
    while i < s.len() && white_space(s[i])
        invariant
            i <= s@.len(),
            lead_ws(s@, 0) == lead_ws(s@, i as int),
        decreases s@.len() - i,
    {
        i = i + 1;
    }
    i
}

/// `s` trimmed of white space at both ends.
pub fn trim_chars(s: &[char]) -> (r: Vec<char>)
    ensures
        r@ == trim(s@),
{
    let e = trail_ws_exec(s);
    let b = lead_ws_exec(s);
    if b >= e {
        Vec::new()
    } else {
        let t = vstd::slice::slice_subrange(s, b, e);
        vstd::slice::slice_to_vec(t)
    }
}

/// Whether a markdown fence (three backticks) starts at `i`.
pub open spec fn fence_at(s: Seq<char>, i: int) -> bool {
    0 <= i && i + 3 <= s.len() && s[i] == '`' && s[i + 1] == '`' && s[i + 2] == '`'
}

/// The first fence at or after `i`.
pub open spec fn find_fence(s: Seq<char>, i: int) -> Option<int>
    decreases s.len() - i,
{
    if i < 0 || i >= s.len() {
        None
    } else if fence_at(s, i) {
        Some(i)
    } else {
        find_fence(s, i + 1)
    }
}

/// The first `c` at or after `i`.
pub open spec fn find_from(s: Seq<char>, i: int, c: char) -> Option<int>
    decreases s.len() - i,
{
    if i < 0 || i >= s.len() {
        None
    } else if s[i] == c {
        Some(i)
    } else {
        find_from(s, i + 1, c)
    }
}

proof fn lemma_find_fence(s: Seq<char>, i: int)
    ensures
        find_fence(s, i) matches Some(k) ==> i <= k && k + 3 <= s.len(),
    decreases s.len() - i,
{
    if 0 <= i < s.len() && !fence_at(s, i) {
        lemma_find_fence(s, i + 1);
    }
}

proof fn lemma_find_from(s: Seq<char>, i: int, c: char)
    ensures
        find_from(s, i, c) matches Some(k) ==> i <= k < s.len(),
    decreases s.len() - i,
{
    if 0 <= i < s.len() && s[i] != c {
        lemma_find_from(s, i + 1, c);
    }
}

fn find_fence_exec(s: &[char], from: usize) -> (r: Option<usize>)
    requires
        from <= s@.len(),
    ensures
        r matches Some(k) ==> find_fence(s@, from as int) == Some(k as int) && from <= k && k + 3
            <= s@.len(),
        r is None ==> find_fence(s@, from as int) is None,
{
    proof {
        lemma_find_fence(s@, from as int);
    }
    let mut i = from;
    while i < s.len()
        invariant
            from <= i <= s@.len(),
            find_fence(s@, from as int) == find_fence(s@, i as int),
        decreases s@.len() - i,
    {
        if s.len() - i >= 3 && s[i] == '`' && s[i + 1] == '`' && s[i + 2] == '`' {
            return Some(i);
        }
        i = i + 1;
    }
    None
}

fn find_from_exec(s: &[char], from: usize, c: char) -> (r: Option<usize>)
    requires
        from <= s@.len(),
    ensures
        r matches Some(k) ==> find_from(s@, from as int, c) == Some(k as int) && from <= k < s@.len(),
        r is None ==> find_from(s@, from as int, c) is None,
{
    proof {
        lemma_find_from(s@, from as int, c);
    }
    let mut i = from;
    while i < s.len()
        invariant
            from <= i <= s@.len(),
            find_from(s@, from as int, c) == find_from(s@, i as int, c),
        decreases s@.len() - i,
    {
        if s[i] == c {
            return Some(i);
        }
        i = i + 1;
    }
    None
}

// ---------------------------------------------------------------------------
// Fences and prose
// ---------------------------------------------------------------------------

/// The body of the first fenced block: from the line after the opening
/// fence (or right after it when no line break follows) to the next fence
/// or the end, trimmed. `None` when there is no fence.
pub open spec fn strip_fences_spec(s: Seq<char>) -> Option<Seq<char>> {
    match find_fence(s, 0) {
        None => None,
        Some(start) => {
            let after = start + 3;
            let body = match find_from(s, after, '\n') {
                Some(n) => n + 1,
                None => after,
            };
            let end = match find_fence(s, body) {
                Some(e) => e,
                None => s.len() as int,
            };
            Some(trim(s.subrange(body, end)))
        },
    }
}

pub fn strip_fences(s: &[char]) -> (r: Option<Vec<char>>)
    ensures
        match strip_fences_spec(s@) {
            Some(t) => r matches Some(v) && v@ == t,
            None => r is None,
        },
{
    assert(s@.len() == s.len());
    let start = match find_fence_exec(s, 0) {
        None => {
            return None;
        },
        Some(k) => k,
    };
    let after = start + 3;
    let body = match find_from_exec(s, after, '\n') {
        Some(n) => n + 1,
        None => after,
    };
    let end = match find_fence_exec(s, body) {
        Some(e) => e,
        None => s.len(),
    };
    let inner = vstd::slice::slice_subrange(s, body, end);
    Some(trim_chars(inner))
}

/// The first balanced span, when it is not already the whole text (up to
/// trailing white space).
pub open spec fn extract_json_spec(s: Seq<char>) -> Option<Seq<char>> {
    match find_open(s, 0) {
        None => None,
        Some(open) => match span_end(s, open) {
            None => None,
            Some(end) => if open == 0 && end == trail_ws(s, s.len() as int) {
                None
            } else {
                Some(s.subrange(open, end))
            },
        },
    }
}

pub fn extract_json(s: &[char]) -> (r: Option<Vec<char>>)
    ensures
        match extract_json_spec(s@) {
            Some(t) => r matches Some(v) && v@ == t,
            None => r is None,
        },
{
    proof {
        lemma_find_open_bounds(s@, 0);
    }
    let open = match find_open_exec(s, 0) {
        None => {
            return None;
        },
        Some(o) => o,
    };
    let end = match span_end_exec(s, open) {
        None => {
            return None;
        },
        Some(e) => e,
    };
    if open == 0 && end == trail_ws_exec(s) {
        return None;
    }
    Some(vstd::slice::slice_to_vec(vstd::slice::slice_subrange(s, open, end)))
}

// ---------------------------------------------------------------------------
// Rewriting passes
// ---------------------------------------------------------------------------

/// An ASCII letter, digit or underscore.
pub open spec fn is_word(c: char) -> bool {
    ('a' <= c <= 'z') || ('A' <= c <= 'Z') || ('0' <= c <= '9') || c == '_'
}

fn is_word_exec(c: char) -> (r: bool)
    ensures
        r == is_word(c),
{
    ('a' <= c && c <= 'z') || ('A' <= c && c <= 'Z') || ('0' <= c && c <= '9') || c == '_'
}

/// No word character touches the `len` characters at `at` on either side.
pub open spec fn word_boundary(s: Seq<char>, at: int, len: int) -> bool {
    (at == 0 || !is_word(s[at - 1])) && (at + len >= s.len() || !is_word(s[at + len]))
}

/// The word `w` stands whole at `i`.
pub open spec fn word_at(s: Seq<char>, i: int, w: Seq<char>) -> bool {
    0 <= i && i + w.len() <= s.len() && s.subrange(i, i + w.len()) == w && word_boundary(
        s,
        i,
        w.len() as int,
    )
}

fn word_at_exec(s: &[char], i: usize, w: &Vec<char>) -> (r: bool)
    requires
        i < s@.len(),
    ensures
        r == word_at(s@, i as int, w@),
{
    assert(s@.len() == s.len());
    let n = w.len();
    if n > s.len() - i {
        return false;
    }
    let mut k: usize = 0;
    while k < n
        invariant
            n == w@.len(),
            i + n <= s@.len(),
            s@.len() == s.len(),
            k <= n,
            forall|m: int| 0 <= m < k ==> s@[i + m] == w@[m],
        decreases n - k,
    {
        if s[i + k] != w[k] {
            assert(s@.subrange(i as int, i + n)[k as int] != w@[k as int]);
            return false;
        }
        k = k + 1;
    }
    assert(s@.subrange(i as int, i + n) =~= w@);
    let before_ok = i == 0 || !is_word_exec(s[i - 1]);
    let after_ok = n >= s.len() - i || !is_word_exec(s[i + n]);
    before_ok && after_ok
}

/// The lowercase JSON literal for a whole Python literal word at `i`, and
/// the word's length.
pub open spec fn python_word(s: Seq<char>, i: int) -> Option<(Seq<char>, int)> {
    if word_at(s, i, seq!['T', 'r', 'u', 'e']) {
        Some((seq!['t', 'r', 'u', 'e'], 4))
    } else if word_at(s, i, seq!['F', 'a', 'l', 's', 'e']) {
        Some((seq!['f', 'a', 'l', 's', 'e'], 5))
    } else if word_at(s, i, seq!['N', 'o', 'n', 'e']) {
        Some((seq!['n', 'u', 'l', 'l'], 4))
    } else {
        None
    }
}

/// Python literals rewritten outside double-quoted strings, from `i` on.
pub open spec fn python_from(s: Seq<char>, i: int, in_str: bool) -> Seq<char>
    decreases s.len() - i,
{
    if i < 0 || i >= s.len() {
        Seq::empty()
    } else if in_str {
        if s[i] == '\\' && i + 1 < s.len() {
            seq![s[i], s[i + 1]] + python_from(s, i + 2, true)
        } else {
            seq![s[i]] + python_from(s, i + 1, s[i] != '"')
        }
    } else if s[i] == '"' {
        seq!['"'] + python_from(s, i + 1, true)
    } else {
        match python_word(s, i) {
            Some((w, n)) => if n > 0 {
                w + python_from(s, i + n, false)
            } else {
                Seq::empty()
            },
            None => seq![s[i]] + python_from(s, i + 1, false),
        }
    }
}

fn push_all(out: &mut Vec<char>, w: &Vec<char>)
    ensures
        final(out)@ == old(out)@ + w@,
{
    let mut k: usize = 0;
    let ghost start = out@;
    while k < w.len()
        invariant
            k <= w@.len(),
            out@ == start + w@.take(k as int),
        decreases w@.len() - k,
    {
        assert(w@.take(k + 1) =~= w@.take(k as int).push(w@[k as int]));
        out.push(w[k]);
        k = k + 1;
    }
    assert(w@.take(w@.len() as int) =~= w@);
}

/// Rewrites `True`/`False`/`None` outside strings as `true`/`false`/`null`.
pub fn python_literals(s: &[char]) -> (r: Vec<char>)
    ensures
        r@ == python_from(s@, 0, false),
{
    let t = vec!['T', 'r', 'u', 'e'];
    let f = vec!['F', 'a', 'l', 's', 'e'];
    let nn = vec!['N', 'o', 'n', 'e'];
    let lt = vec!['t', 'r', 'u', 'e'];
    let lf = vec!['f', 'a', 'l', 's', 'e'];
    let ln = vec!['n', 'u', 'l', 'l'];
    let mut out: Vec<char> = Vec::new();
    let mut i: usize = 0;
    let mut in_str = false;
    while i < s.len()
        invariant
            i <= s@.len(),
            t@ == seq!['T', 'r', 'u', 'e'],
            f@ == seq!['F', 'a', 'l', 's', 'e'],
            nn@ == seq!['N', 'o', 'n', 'e'],
            lt@ == seq!['t', 'r', 'u', 'e'],
            lf@ == seq!['f', 'a', 'l', 's', 'e'],
            ln@ == seq!['n', 'u', 'l', 'l'],
            out@ + python_from(s@, i as int, in_str) == python_from(s@, 0, false),
        decreases s@.len() - i,
    {
        assert(s@.len() == s.len());
        let ghost before = out@;
        let ghost rest = python_from(s@, i as int, in_str);
        let c = s[i];
        if in_str {
            if c == '\\' && i + 1 < s.len() {
                out.push(c);
                out.push(s[i + 1]);
                i = i + 2;
            } else {
                out.push(c);
                in_str = c != '"';
                i = i + 1;
            }
        } else if c == '"' {
            out.push(c);
            in_str = true;
            i = i + 1;
        } else if word_at_exec(s, i, &t) {
            push_all(&mut out, &lt);
            i = i + 4;
        } else if word_at_exec(s, i, &f) {
            push_all(&mut out, &lf);
            i = i + 5;
        } else if word_at_exec(s, i, &nn) {
            push_all(&mut out, &ln);
            i = i + 4;
        } else {
            out.push(c);
            i = i + 1;
        }
        assert(out@ + python_from(s@, i as int, in_str) =~= before + rest);
    }
    assert(out@ + Seq::<char>::empty() =~= out@);
    out
}

/// Single-quoted strings rewritten as double-quoted ones, from `i` on,
/// outside any string or inside a double-quoted one.
pub open spec fn requote_from(s: Seq<char>, i: int, in_dq: bool) -> Seq<char>
    decreases s.len() - i,
{
    if i < 0 || i >= s.len() {
        Seq::empty()
    } else if in_dq {
        if s[i] == '\\' && i + 1 < s.len() {
            seq![s[i], s[i + 1]] + requote_from(s, i + 2, true)
        } else {
            seq![s[i]] + requote_from(s, i + 1, s[i] != '"')
        }
    } else if s[i] == '"' {
        seq!['"'] + requote_from(s, i + 1, true)
    } else if s[i] == '\'' {
        seq!['"'] + single_from(s, i + 1)
    } else {
        seq![s[i]] + requote_from(s, i + 1, false)
    }
}

/// The rest of a single-quoted string from `i` on: `\'` becomes `'`, a
/// double quote is escaped, and the closing quote (or the end of the text)
/// becomes `"`.
pub open spec fn single_from(s: Seq<char>, i: int) -> Seq<char>
    decreases s.len() - i,
{
    if i < 0 || i >= s.len() {
        seq!['"']
    } else if s[i] == '\\' && i + 1 < s.len() && s[i + 1] == '\'' {
        seq!['\''] + single_from(s, i + 2)
    } else if s[i] == '\'' {
        seq!['"'] + requote_from(s, i + 1, false)
    } else if s[i] == '"' {
        seq!['\\', '"'] + single_from(s, i + 1)
    } else {
        seq![s[i]] + single_from(s, i + 1)
    }
}

/// Rewrites single-quoted strings as double-quoted strings.
pub fn requote_strings(s: &[char]) -> (r: Vec<char>)
    ensures
        r@ == requote_from(s@, 0, false),
{
    let mut out: Vec<char> = Vec::new();
    let mut i: usize = 0;
    // 0: outside strings, 1: in a double-quoted string, 2: in a single-quoted one
    let mut mode: u8 = 0;
    while i < s.len()
        invariant
            i <= s@.len(),
            mode <= 2,
            out@ + (if mode == 2 {
                single_from(s@, i as int)
            } else {
                requote_from(s@, i as int, mode == 1)
            }) == requote_from(s@, 0, false),
        decreases s@.len() - i,
    {
        assert(s@.len() == s.len());
        let ghost before = out@;
        let ghost rest = if mode == 2 {
            single_from(s@, i as int)
        } else {
            requote_from(s@, i as int, mode == 1)
        };
        let c = s[i];
        if mode == 1 {
            if c == '\\' && i + 1 < s.len() {
                out.push(c);
                out.push(s[i + 1]);
                i = i + 2;
            } else {
                out.push(c);
                if c == '"' {
                    mode = 0;
                }
                i = i + 1;
            }
        } else if mode == 0 {
            if c == '"' {
                out.push(c);
                mode = 1;
            } else if c == '\'' {
                out.push('"');
                mode = 2;
            } else {
                out.push(c);
            }
            i = i + 1;
        } else {
            if c == '\\' && i + 1 < s.len() && s[i + 1] == '\'' {
                out.push('\'');
                i = i + 2;
            } else if c == '\'' {
                out.push('"');
                mode = 0;
                i = i + 1;
            } else if c == '"' {
                out.push('\\');
                out.push('"');
                i = i + 1;
            } else {
                out.push(c);
                i = i + 1;
            }
        }
        assert(out@ + (if mode == 2 {
            single_from(s@, i as int)
        } else {
            requote_from(s@, i as int, mode == 1)
        }) =~= before + rest);
    }
    if mode == 2 {
        out.push('"');
    } else {
        assert(out@ + Seq::<char>::empty() =~= out@);
    }
    out
}

/// The position after the ASCII white space starting at `j`.
pub open spec fn skip_space(s: Seq<char>, j: int) -> int
    decreases s.len() - j,
{
    if 0 <= j < s.len() && is_ascii_space(s[j]) {
        skip_space(s, j + 1)
    } else {
        j
    }
}

/// The position after the word characters starting at `j`.
pub open spec fn skip_word(s: Seq<char>, j: int) -> int
    decreases s.len() - j,
{
    if 0 <= j < s.len() && is_word(s[j]) {
        skip_word(s, j + 1)
    } else {
        j
    }
}

proof fn lemma_skip_space(s: Seq<char>, j: int)
    requires
        0 <= j <= s.len(),
    ensures
        j <= skip_space(s, j) <= s.len(),
    decreases s.len() - j,
{
    if j < s.len() && is_ascii_space(s[j]) {
        lemma_skip_space(s, j + 1);
    }
}

proof fn lemma_skip_word(s: Seq<char>, j: int)
    requires
        0 <= j <= s.len(),
    ensures
        j <= skip_word(s, j) <= s.len(),
    decreases s.len() - j,
{
    if j < s.len() && is_word(s[j]) {
        lemma_skip_word(s, j + 1);
    }
}

fn ascii_space(c: char) -> (r: bool)
    ensures
        r == is_ascii_space(c),
{
    c == ' ' || c == '\t' || c == '\n' || c == '\r' || c == '\x0b' || c == '\x0c'
}

fn skip_space_exec(s: &[char], j: usize) -> (r: usize)
    requires
        j <= s@.len(),
    ensures
        r == skip_space(s@, j as int),
        j <= r <= s@.len(),
{
    proof {
        lemma_skip_space(s@, j as int);
    }
    let mut k = j;
    while k < s.len() && ascii_space(s[k])
        invariant
            j <= k <= s@.len(),
            skip_space(s@, k as int) == skip_space(s@, j as int),
        decreases s@.len() - k,
    {
        k = k + 1;
    }
    k
}

fn skip_word_exec(s: &[char], j: usize) -> (r: usize)
    requires
        j <= s@.len(),
    ensures
        r == skip_word(s@, j as int),
        j <= r <= s@.len(),
{
    proof {
        lemma_skip_word(s@, j as int);
    }
    let mut k = j;
    while k < s.len() && is_word_exec(s[k])
        invariant
            j <= k <= s@.len(),
            skip_word(s@, k as int) == skip_word(s@, j as int),
        decreases s@.len() - k,
    {
        k = k + 1;
    }
    k
}

/// Bare object keys quoted, from `i` on: after `{` or `,` outside strings,
/// white space, a word and (after white space) a colon make the word a key.
pub open spec fn keys_from(s: Seq<char>, i: int, in_str: bool) -> Seq<char>
    decreases s.len() - i,
{
    if i < 0 || i >= s.len() {
        Seq::empty()
    } else if in_str {
        if s[i] == '\\' && i + 1 < s.len() {
            seq![s[i], s[i + 1]] + keys_from(s, i + 2, true)
        } else {
            seq![s[i]] + keys_from(s, i + 1, s[i] != '"')
        }
    } else if s[i] == '"' {
        seq!['"'] + keys_from(s, i + 1, true)
    } else if s[i] == '{' || s[i] == ',' {
        let ident = skip_space(s, i + 1);
        let j = skip_word(s, ident);
        let k = skip_space(s, j);
        if i + 1 <= ident < j && j <= k < s.len() && s[k] == ':' {
            seq![s[i]] + s.subrange(i + 1, ident) + seq!['"'] + s.subrange(ident, j) + seq!['"']
                + keys_from(s, j, false)
        } else {
            seq![s[i]] + keys_from(s, i + 1, false)
        }
    } else {
        seq![s[i]] + keys_from(s, i + 1, false)
    }
}

fn push_range(out: &mut Vec<char>, s: &[char], a: usize, b: usize)
    requires
        a <= b <= s@.len(),
    ensures
        final(out)@ == old(out)@ + s@.subrange(a as int, b as int),
{
    let ghost start = out@;
    let mut k = a;
    while k < b
        invariant
            a <= k <= b <= s@.len(),
            out@ == start + s@.subrange(a as int, k as int),
        decreases b - k,
    {
        assert(s@.subrange(a as int, k + 1) =~= s@.subrange(a as int, k as int).push(s@[k as int]));
        out.push(s[k]);
        k = k + 1;
    }
}

/// Quotes bare object keys.
pub fn quote_bare_keys(s: &[char]) -> (r: Vec<char>)
    ensures
        r@ == keys_from(s@, 0, false),
{
    let mut out: Vec<char> = Vec::new();
    let mut i: usize = 0;
    let mut in_str = false;
    while i < s.len()
        invariant
            i <= s@.len(),
            out@ + keys_from(s@, i as int, in_str) == keys_from(s@, 0, false),
        decreases s@.len() - i,
    {
        assert(s@.len() == s.len());
        let ghost before = out@;
        let ghost rest = keys_from(s@, i as int, in_str);
        let c = s[i];
        if in_str {
            if c == '\\' && i + 1 < s.len() {
                out.push(c);
                out.push(s[i + 1]);
                i = i + 2;
            } else {
                out.push(c);
                in_str = c != '"';
                i = i + 1;
            }
        } else if c == '"' {
            out.push(c);
            in_str = true;
            i = i + 1;
        } else if c == '{' || c == ',' {
            out.push(c);
            let ident = skip_space_exec(s, i + 1);
            let j = skip_word_exec(s, ident);
            let k = skip_space_exec(s, j);
            if ident < j && k < s.len() && s[k] == ':' {
                push_range(&mut out, s, i + 1, ident);
                out.push('"');
                push_range(&mut out, s, ident, j);
                out.push('"');
                i = j;
            } else {
                i = i + 1;
            }
        } else {
            out.push(c);
            i = i + 1;
        }
        assert(out@ + keys_from(s@, i as int, in_str) =~= before + rest);
    }
    assert(out@ + Seq::<char>::empty() =~= out@);
    out
}

/// Trailing commas (a comma, white space, then `}` or `]`) dropped outside
/// strings, from `i` on.
pub open spec fn commas_from(s: Seq<char>, i: int, in_str: bool) -> Seq<char>
    decreases s.len() - i,
{
    if i < 0 || i >= s.len() {
        Seq::empty()
    } else if in_str {
        if s[i] == '\\' && i + 1 < s.len() {
            seq![s[i], s[i + 1]] + commas_from(s, i + 2, true)
        } else {
            seq![s[i]] + commas_from(s, i + 1, s[i] != '"')
        }
    } else if s[i] == '"' {
        seq!['"'] + commas_from(s, i + 1, true)
    } else if s[i] == ',' && {
        let j = skip_space(s, i + 1);
        0 <= j < s.len() && is_close_bracket(s[j])
    } {
        commas_from(s, i + 1, false)
    } else {
        seq![s[i]] + commas_from(s, i + 1, false)
    }
}

/// Removes trailing commas before `}` and `]`.
pub fn remove_trailing_commas(s: &[char]) -> (r: Vec<char>)
    ensures
        r@ == commas_from(s@, 0, false),
{
    let mut out: Vec<char> = Vec::new();
    let mut i: usize = 0;
    let mut in_str = false;
    while i < s.len()
        invariant
            i <= s@.len(),
            out@ + commas_from(s@, i as int, in_str) == commas_from(s@, 0, false),
        decreases s@.len() - i,
    {
        assert(s@.len() == s.len());
        let ghost before = out@;
        let ghost rest = commas_from(s@, i as int, in_str);
        let c = s[i];
        if in_str {
            if c == '\\' && i + 1 < s.len() {
                out.push(c);
                out.push(s[i + 1]);
                i = i + 2;
            } else {
                out.push(c);
                in_str = c != '"';
                i = i + 1;
            }
        } else if c == '"' {
            out.push(c);
            in_str = true;
            i = i + 1;
        } else {
            let trailing = if c == ',' {
                let j = skip_space_exec(s, i + 1);
                j < s.len() && (s[j] == '}' || s[j] == ']')
            } else {
                false
            };
            if !trailing {
                out.push(c);
            }
            i = i + 1;
        }
        assert(out@ + commas_from(s@, i as int, in_str) =~= before + rest);
    }
    assert(out@ + Seq::<char>::empty() =~= out@);
    out
}

} // verus!
