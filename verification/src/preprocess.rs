//! Slang preprocessing: split a combined `.slang` source into vertex and
//! fragment GLSL and extract the meta pragmas.
//!
//! - lines before the first `#pragma stage` are common to both stages;
//! - `#pragma stage vertex|fragment` switches which stage later lines join;
//! - `#pragma name|format|parameter` are metadata, stripped from the GLSL;
//! - every other line (other pragmas included) is kept as is.

use vstd::prelude::*;
use crate::text::{chars_of, is_ws, is_ws_exec, is_digit, all_digits, leading_ws, trim_start,
    trim, starts_with, skip_ws, trim_range, starts_with_at, sub_vec, sub_string, append_range,
    lines, lines_of, joined_lines, string_from_chars, lemma_leading_ws_bound};

verus! {

/// This component's identity marker.
pub const NAME: &'static str = "slang-compile";


/// The two shader stages a `.slang` file defines.
#[derive(Debug, Clone, Copy, PartialEq, Eq, Structural)]
pub enum Stage {
    Vertex,
    Fragment,
}

impl Stage {
    /// glslang's `-S` argument and the temp-file extension for this stage.
    pub fn glslang_name(self) -> (s: &'static str)
        ensures
            s@ == match self { Stage::Vertex => "vert"@, Stage::Fragment => "frag"@ },
    {
        match self {
            Stage::Vertex => "vert",
            Stage::Fragment => "frag",
        }
    }
}

/// A `#pragma parameter` declaration: `<name> "<label>" <default> <min> <max>
/// [<step>]`, its numbers kept as the source tokens (each a valid decimal
/// floating-point literal). An absent or unparsable step is `None` (zero).
#[derive(Debug, Clone, PartialEq, Eq)]
pub struct ParameterDecl {
    pub name: String,
    pub label: String,
    pub default: String,
    pub min: String,
    pub max: String,
    pub step: Option<String>,
}

/// The content of a [`ParameterDecl`].
pub type ParamView = (Seq<char>, Seq<char>, Seq<char>, Seq<char>, Seq<char>, Option<Seq<char>>);

impl View for ParameterDecl {
    type V = ParamView;

    open spec fn view(&self) -> ParamView {
        (self.name@, self.label@, self.default@, self.min@, self.max@,
            match self.step { Some(s) => Some(s@), None => None })
    }
}

/// Metadata parsed out of the slang pragmas.
#[derive(Debug, Clone, PartialEq, Eq)]
pub struct Reflection {
    /// `#pragma name` — the pass alias (the last one wins).
    pub name: Option<String>,
    /// `#pragma format` — the requested FBO format (the last one wins).
    pub format: Option<String>,
    /// `#pragma parameter` declarations, in order.
    pub parameters: Vec<ParameterDecl>,
}

/// The result of preprocessing: per-stage GLSL plus extracted metadata.
#[derive(Debug, Clone, PartialEq, Eq)]
pub struct Preprocessed {
    pub vertex: String,
    pub fragment: String,
    pub reflection: Reflection,
}

/// Errors from preprocessing (before glslang runs).
#[derive(Debug)]
pub enum PreprocessError {
    /// An `#include` could not be read.
    Include { path: String, source: std::io::Error },
    /// `#include` nesting exceeded the limit (likely a cycle).
    IncludeCycle { path: String },
    /// A `#pragma parameter` line was malformed.
    BadParameter { line: String },
    /// Neither a vertex nor a fragment stage was found.
    MissingStage,
}

#[verifier::external_type_specification]
#[verifier::external_body]
pub struct ExIoError(std::io::Error);

// ---------------------------------------------------------------------------
// Floating-point literal syntax (`f32::from_str`):
//   Float  ::= Sign? ( 'inf' | 'infinity' | 'nan' | Number )
//   Number ::= ( Digit+ | Digit+ '.' Digit* | Digit* '.' Digit+ ) Exp?
//   Exp    ::= 'e' Sign? Digit+
// letters matched case-insensitively.

/// ASCII lower-casing.
pub open spec fn lower(c: char) -> char {
    if 'A' <= c && c <= 'Z' { ((c as u32) + 32) as char } else { c }
}

/// `t` equals the lower-case word `w` ignoring ASCII case.
pub open spec fn eq_ignore_case(t: Seq<char>, w: Seq<char>) -> bool {
    t.len() == w.len() && forall|i: int| 0 <= i < t.len() ==> lower(#[trigger] t[i]) == w[i]
}

/// `t` without one leading sign.
pub open spec fn unsigned_part(t: Seq<char>) -> Seq<char> {
    if t.len() > 0 && (t[0] == '+' || t[0] == '-') { t.drop_first() } else { t }
}

/// Digits with at most one `'.'` and at least one digit.
pub open spec fn mantissa_ok(m: Seq<char>) -> bool {
    &&& forall|i: int| 0 <= i < m.len() ==> is_digit(#[trigger] m[i]) || m[i] == '.'
    &&& forall|i: int, j: int| 0 <= i < j < m.len() ==> !(#[trigger] m[i] == '.' && #[trigger] m[j] == '.')
    &&& exists|i: int| 0 <= i < m.len() && is_digit(#[trigger] m[i])
}

/// An exponent's digits: an optional sign then at least one digit.
pub open spec fn exponent_ok(x: Seq<char>) -> bool {
    unsigned_part(x).len() > 0 && all_digits(unsigned_part(x))
}

/// The index of the first `'e'`/`'E'` in `u` at or after `i` (or `u.len()`).
pub open spec fn first_e(u: Seq<char>, i: nat) -> nat
    decreases u.len() - i,
{
    if i >= u.len() {
        u.len()
    } else if u[i as int] == 'e' || u[i as int] == 'E' {
        i
    } else {
        first_e(u, i + 1)
    }
}

/// A decimal number: mantissa, then optionally `e`/`E` and an exponent.
pub open spec fn decimal_ok(u: Seq<char>) -> bool {
    let e = first_e(u, 0);
    e <= u.len() && mantissa_ok(u.take(e as int))
        && (e == u.len() || exponent_ok(u.skip((e + 1) as int)))
}

/// Whether `t` is a valid floating-point literal.
pub open spec fn is_float_lit(t: Seq<char>) -> bool {
    let u = unsigned_part(t);
    eq_ignore_case(u, "inf"@) || eq_ignore_case(u, "infinity"@) || eq_ignore_case(u, "nan"@)
        || decimal_ok(u)
}

proof fn lemma_first_e(u: Seq<char>, i: nat)
    ensures
        i <= u.len() ==> i <= first_e(u, i) <= u.len(),
        first_e(u, i) < u.len() ==> (u[first_e(u, i) as int] == 'e' || u[first_e(u, i) as int] == 'E'),
        forall|k: int| i <= k < first_e(u, i) ==> u[k] != 'e' && u[k] != 'E',
    decreases u.len() - i,
{
    if i < u.len() && !(u[i as int] == 'e' || u[i as int] == 'E') {
        lemma_first_e(u, i + 1);
    }
}

/// Whether `v[a..b]` equals the lower-case word `w` ignoring ASCII case.
fn eq_ignore_case_at(v: &Vec<char>, a: usize, b: usize, w: &str) -> (r: bool)
    requires
        a <= b <= v@.len(),
    ensures
        r == eq_ignore_case(v@.subrange(a as int, b as int), w@),
{
    let wc = chars_of(w);
    if b - a != wc.len() {
        return false;
    }
    let mut i: usize = 0;
    while i < wc.len()
        invariant
            a <= b <= v@.len(),
            b - a == wc@.len(),
            wc@ == w@,
            i <= wc@.len(),
            forall|k: int| 0 <= k < i ==> lower(#[trigger] v@.subrange(a as int, b as int)[k]) == wc@[k],
        decreases wc@.len() - i,
    {
        let c = v[a + i];
        let l = if 'A' <= c && c <= 'Z' { ((c as u32) + 32) as u8 as char } else { c };
        assert(v@.subrange(a as int, b as int)[i as int] == c);
        if l != wc[i] {
            return false;
        }
        i = i + 1;
    }
    true
}

/// Whether `v[a..b]` is a valid floating-point literal.
pub fn is_float_literal(v: &Vec<char>, a: usize, b: usize) -> (r: bool)
    requires
        a <= b <= v@.len(),
    ensures
        r == is_float_lit(v@.subrange(a as int, b as int)),
{
    let ghost t = v@.subrange(a as int, b as int);
    let s = if a < b && (v[a] == '+' || v[a] == '-') { a + 1 } else { a };
    let ghost u = v@.subrange(s as int, b as int);
    assert(unsigned_part(t) =~= u);
    if eq_ignore_case_at(v, s, b, "inf") || eq_ignore_case_at(v, s, b, "infinity")
        || eq_ignore_case_at(v, s, b, "nan") {
        return true;
    }
    // Locate the exponent marker.
    let mut e = s;
    while e < b && v[e] != 'e' && v[e] != 'E'
        invariant
            s <= e <= b <= v@.len(),
            u == v@.subrange(s as int, b as int),
            first_e(u, 0) == first_e(u, (e - s) as nat),
        decreases b - e,
    {
        e = e + 1;
    }
    proof { lemma_first_e(u, 0); lemma_first_e(u, (e - s) as nat); }
    assert(first_e(u, 0) == e - s);
    // Mantissa: digits with at most one dot and at least one digit.
    let mut i = s;
    let mut dots: usize = 0;
    let mut digits: usize = 0;
    let ghost m = u.take((e - s) as int);
    assert(m =~= v@.subrange(s as int, e as int));
    while i < e
        invariant
            s <= i <= e <= b <= v@.len(),
            m == v@.subrange(s as int, e as int),
            u == v@.subrange(s as int, b as int),
            t == v@.subrange(a as int, b as int),
            unsigned_part(t) == u,
            first_e(u, 0) == e - s,
            m == u.take((e - s) as int),
            !(eq_ignore_case(u, "inf"@) || eq_ignore_case(u, "infinity"@) || eq_ignore_case(u, "nan"@)),
            dots <= 1,
            digits <= i - s,
            forall|k: int| 0 <= k < i - s ==> is_digit(#[trigger] m[k]) || m[k] == '.',
            dots == 0 ==> forall|k: int| 0 <= k < i - s ==> m[k] != '.',
            dots == 1 ==> exists|k: int| 0 <= k < i - s && m[k] == '.',
            forall|k1: int, k2: int| 0 <= k1 < k2 < i - s ==> !(#[trigger] m[k1] == '.' && #[trigger] m[k2] == '.'),
            digits > 0 <==> exists|k: int| 0 <= k < i - s && is_digit(#[trigger] m[k]),
        decreases e - i,
    {
        let c = v[i];
        assert(m[i - s] == c);
        if '0' <= c && c <= '9' {
            digits = digits + 1;
        } else if c == '.' {
            if dots == 1 {
                proof {
                    let k = choose|k: int| 0 <= k < i - s && m[k] == '.';
                    assert(m[k] == '.' && m[i - s] == '.');
                    assert(!mantissa_ok(m));
                    assert(m == u.take(first_e(u, 0) as int));
                }
                return false;
            }
            dots = 1;
        } else {
            proof {
                assert(!(is_digit(m[i - s]) || m[i - s] == '.'));
                assert(!mantissa_ok(m));
                assert(m == u.take(first_e(u, 0) as int));
            }
            return false;
        }
        i = i + 1;
    }
    if digits == 0 {
        proof {
            assert(m == u.take(first_e(u, 0) as int));
            assert(!mantissa_ok(m));
        }
        return false;
    }
    assert(mantissa_ok(m));
    if e == b {
        assert(u.take((e - s) as int) =~= m);
        return true;
    }
    // Exponent: optional sign, then at least one digit.
    let x0 = e + 1;
    let x = if x0 < b && (v[x0] == '+' || v[x0] == '-') { x0 + 1 } else { x0 };
    assert(u.skip((e - s + 1) as int) =~= v@.subrange(x0 as int, b as int));
    assert(unsigned_part(v@.subrange(x0 as int, b as int)) =~= v@.subrange(x as int, b as int));
    if x == b {
        proof {
            assert(!exponent_ok(u.skip((e - s + 1) as int)));
        }
        return false;
    }
    let mut j = x;
    while j < b
        invariant
            x <= j <= b <= v@.len(),
            u == v@.subrange(s as int, b as int),
            t == v@.subrange(a as int, b as int),
            unsigned_part(t) == u,
            first_e(u, 0) == e - s,
            e < b,
            x0 == e + 1,
            u.skip((e - s + 1) as int) == v@.subrange(x0 as int, b as int),
            unsigned_part(v@.subrange(x0 as int, b as int)) == v@.subrange(x as int, b as int),
            !(eq_ignore_case(u, "inf"@) || eq_ignore_case(u, "infinity"@) || eq_ignore_case(u, "nan"@)),
            forall|k: int| x <= k < j ==> is_digit(#[trigger] v@[k]),
        decreases b - j,
    {
        if !('0' <= v[j] && v[j] <= '9') {
            proof {
                assert(!is_digit(v@.subrange(x as int, b as int)[j - x]));
                assert(!all_digits(v@.subrange(x as int, b as int)));
                assert(!exponent_ok(u.skip((e - s + 1) as int)));
            }
            return false;
        }
        j = j + 1;
    }
    assert(all_digits(v@.subrange(x as int, b as int))) by {
        assert forall|k: int| 0 <= k < b - x implies is_digit(#[trigger] v@.subrange(x as int, b as int)[k]) by {
            assert(v@.subrange(x as int, b as int)[k] == v@[x + k]);
        }
    }
    true
}

/// The number of leading non-whitespace characters of `s`.
pub open spec fn nonws_len(s: Seq<char>) -> nat
    decreases s.len(),
{
    if s.len() > 0 && !is_ws(s[0]) { 1 + nonws_len(s.drop_first()) } else { 0 }
}

pub proof fn lemma_nonws_len(s: Seq<char>)
    ensures
        nonws_len(s) <= s.len(),
        s.len() > 0 && !is_ws(s[0]) ==> nonws_len(s) >= 1,
        forall|i: int| 0 <= i < nonws_len(s) ==> !is_ws(#[trigger] s[i]),
        nonws_len(s) < s.len() ==> is_ws(s[nonws_len(s) as int]),
    decreases s.len(),
{
    if s.len() > 0 && !is_ws(s[0]) {
        lemma_nonws_len(s.drop_first());
        assert forall|i: int| 0 <= i < nonws_len(s) implies !is_ws(#[trigger] s[i]) by {
            if i > 0 {
                assert(s[i] == s.drop_first()[i - 1]);
            }
        }
    }
}

/// The whitespace-separated tokens of `s` (`str::split_whitespace`).
pub open spec fn tokens(s: Seq<char>) -> Seq<Seq<char>>
    decreases s.len(),
{
    let a = leading_ws(s);
    if a >= s.len() {
        Seq::empty()
    } else {
        let rest = s.skip(a as int);
        let k = nonws_len(rest);
        proof {
            lemma_leading_ws_bound(s);
            lemma_nonws_len(rest);
        }
        seq![rest.take(k as int)] + tokens(rest.skip(k as int))
    }
}

/// The next token of `v[i..to]`, as bounds, with the tokens after it.
fn next_token(v: &Vec<char>, i: usize, to: usize) -> (r: Option<(usize, usize)>)
    requires
        i <= to <= v@.len(),
    ensures
        match r {
            Some((a, b)) => i <= a < b <= to
                && tokens(v@.subrange(i as int, to as int)) == seq![v@.subrange(a as int, b as int)] + tokens(v@.subrange(b as int, to as int)),
            None => tokens(v@.subrange(i as int, to as int)) == Seq::<Seq<char>>::empty(),
        },
{
    let a = skip_ws(v, i, to);
    let ghost s = v@.subrange(i as int, to as int);
    proof { lemma_leading_ws_bound(s); }
    if a == to {
        return None;
    }
    let mut b = a;
    while b < to && !is_ws_exec(v[b])
        invariant
            a <= b <= to <= v@.len(),
            nonws_len(v@.subrange(a as int, to as int)) == (b - a) + nonws_len(v@.subrange(b as int, to as int)),
        decreases to - b,
    {
        assert(v@.subrange(b as int, to as int).drop_first() =~= v@.subrange(b + 1, to as int));
        b = b + 1;
    }
    proof {
        let rest = s.skip(leading_ws(s) as int);
        assert(rest =~= v@.subrange(a as int, to as int));
        assert(!is_ws(rest[0]));
        assert(nonws_len(v@.subrange(b as int, to as int)) == 0);
        assert(rest.take((b - a) as int) =~= v@.subrange(a as int, b as int));
        assert(rest.skip((b - a) as int) =~= v@.subrange(b as int, to as int));
    }
    Some((a, b))
}

/// The index of the first `'"'` in `s` at or after `i` (or `s.len()`).
pub open spec fn first_quote(s: Seq<char>, i: nat) -> nat
    decreases s.len() - i,
{
    if i >= s.len() {
        s.len()
    } else if s[i as int] == '"' {
        i
    } else {
        first_quote(s, i + 1)
    }
}

proof fn lemma_first_quote(s: Seq<char>, i: nat)
    ensures
        i <= s.len() ==> i <= first_quote(s, i) <= s.len(),
    decreases s.len() - i,
{
    if i < s.len() && s[i as int] != '"' {
        lemma_first_quote(s, i + 1);
    }
}

/// Parse `<name> "<label>" <default> <min> <max> [<step>]`: the name runs to
/// the first whitespace character; the label is the quoted text; the first
/// three following tokens must be floating-point literals; a fourth is the
/// step when it is one.
pub open spec fn parse_param_spec(arg: Seq<char>) -> Option<ParamView> {
    let k = nonws_len(arg);
    if k >= arg.len() {
        None
    } else {
        let rest = trim_start(arg.skip((k + 1) as int));
        if !(rest.len() > 0 && rest[0] == '"') {
            None
        } else {
            let r2 = rest.drop_first();
            let q = first_quote(r2, 0);
            if q >= r2.len() {
                None
            } else {
                let toks = tokens(r2.skip((q + 1) as int));
                if toks.len() >= 3 && is_float_lit(toks[0]) && is_float_lit(toks[1]) && is_float_lit(toks[2]) {
                    Some((arg.take(k as int), r2.take(q as int), toks[0], toks[1], toks[2],
                        if toks.len() >= 4 && is_float_lit(toks[3]) { Some(toks[3]) } else { None }))
                } else {
                    None
                }
            }
        }
    }
}

/// Parse the parameter declaration `v[a..b]` (see [`parse_param_spec`]).
fn parse_parameter_at(v: &Vec<char>, a: usize, b: usize) -> (r: Option<ParameterDecl>)
    requires
        a <= b <= v@.len(),
    ensures
        match r {
            Some(p) => parse_param_spec(v@.subrange(a as int, b as int)) == Some(p@),
            None => parse_param_spec(v@.subrange(a as int, b as int)) is None,
        },
{
    let ghost arg = v@.subrange(a as int, b as int);
    // The name runs to the first whitespace character.
    let mut k = a;
    while k < b && !is_ws_exec(v[k])
        invariant
            a <= k <= b <= v@.len(),
            arg == v@.subrange(a as int, b as int),
            nonws_len(arg) == (k - a) + nonws_len(v@.subrange(k as int, b as int)),
        decreases b - k,
    {
        assert(v@.subrange(k as int, b as int).drop_first() =~= v@.subrange(k + 1, b as int));
        k = k + 1;
    }
    if k >= b {
        return None;
    }
    assert(nonws_len(v@.subrange(k as int, b as int)) == 0);
    assert(arg.skip((k - a + 1) as int) =~= v@.subrange(k + 1, b as int));
    let r = skip_ws(v, k + 1, b);
    assert(trim_start(arg.skip((k - a + 1) as int)) =~= v@.subrange(r as int, b as int));
    if !(r < b && v[r] == '"') {
        return None;
    }
    let l0 = r + 1;
    let ghost r2 = v@.subrange(l0 as int, b as int);
    assert(v@.subrange(r as int, b as int).drop_first() =~= r2);
    let mut q = l0;
    while q < b && v[q] != '"'
        invariant
            l0 <= q <= b <= v@.len(),
            r2 == v@.subrange(l0 as int, b as int),
            first_quote(r2, 0) == first_quote(r2, (q - l0) as nat),
        decreases b - q,
    {
        q = q + 1;
    }
    proof { lemma_first_quote(r2, 0); }
    if q >= b {
        return None;
    }
    let ghost nums = r2.skip((q - l0 + 1) as int);
    assert(nums =~= v@.subrange(q + 1, b as int));
    let t0 = next_token(v, q + 1, b);
    let (a0, b0) = match t0 { Some(t) => t, None => return None };
    let t1 = next_token(v, b0, b);
    let (a1, b1) = match t1 { Some(t) => t, None => return None };
    let t2 = next_token(v, b1, b);
    let (a2, b2) = match t2 { Some(t) => t, None => return None };
    let t3 = next_token(v, b2, b);
    proof {
        let toks = tokens(nums);
        assert(toks[0] == v@.subrange(a0 as int, b0 as int));
        assert(toks.drop_first() == tokens(v@.subrange(b0 as int, b as int)));
        assert(toks[1] == v@.subrange(a1 as int, b1 as int));
        assert(toks[2] == v@.subrange(a2 as int, b2 as int));
        assert(toks.len() >= 3);
        match t3 {
            Some((a3, b3)) => {
                assert(toks[3] == v@.subrange(a3 as int, b3 as int));
            },
            None => {
                assert(toks.len() == 3);
            },
        }
    }
    if !(is_float_literal(v, a0, b0) && is_float_literal(v, a1, b1) && is_float_literal(v, a2, b2)) {
        return None;
    }
    let step = match t3 {
        Some((a3, b3)) => if is_float_literal(v, a3, b3) { Some(sub_string(v, a3, b3)) } else { None },
        None => None,
    };
    assert(arg.take((k - a) as int) =~= v@.subrange(a as int, k as int));
    assert(r2.take((q - l0) as int) =~= v@.subrange(l0 as int, q as int));
    Some(ParameterDecl {
        name: sub_string(v, a, k),
        label: sub_string(v, l0, q),
        default: sub_string(v, a0, b0),
        min: sub_string(v, a1, b1),
        max: sub_string(v, a2, b2),
        step,
    })
}

/// Nesting limit for `#include` (deeper nesting is taken to be a cycle).
pub const MAX_INCLUDE_DEPTH: usize = 32;

/// `#include "rel/path"` (leading whitespace allowed, and whitespace between
/// the keyword and the quote) names `rel/path`: the text up to the next quote.
pub open spec fn include_spec(line: Seq<char>) -> Option<Seq<char>> {
    let t = trim_start(line);
    if !starts_with(t, "#include"@) {
        None
    } else {
        let rest = trim_start(t.skip(8));
        if !(rest.len() > 0 && rest[0] == '"') {
            None
        } else {
            let r = rest.drop_first();
            let q = first_quote(r, 0);
            if q < r.len() { Some(r.take(q as int)) } else { None }
        }
    }
}

/// The path of `v[from..to]` when it is an `#include` line, as bounds.
pub(crate) fn include_at(v: &Vec<char>, from: usize, to: usize) -> (r: Option<(usize, usize)>)
    requires
        from <= to <= v@.len(),
    ensures
        match r {
            Some((a, b)) => from <= a <= b <= to
                && include_spec(v@.subrange(from as int, to as int)) == Some(v@.subrange(a as int, b as int)),
            None => include_spec(v@.subrange(from as int, to as int)) is None,
        },
{
    let t = skip_ws(v, from, to);
    proof { lemma_trim_start_skip(v@, from as int, to as int, t as int); }
    if !starts_with_at(v, t, to, "#include") {
        return None;
    }
    proof { reveal_strlit("#include"); }
    let r = skip_ws(v, t + 8, to);
    proof {
        assert(v@.subrange(t as int, to as int).skip(8) =~= v@.subrange(t + 8, to as int));
        lemma_trim_start_skip(v@, t + 8, to as int, r as int);
    }
    if !(r < to && v[r] == '"') {
        return None;
    }
    let l0 = r + 1;
    let ghost r2 = v@.subrange(l0 as int, to as int);
    assert(v@.subrange(r as int, to as int).drop_first() =~= r2);
    let mut q = l0;
    while q < to && v[q] != '"'
        invariant
            l0 <= q <= to <= v@.len(),
            r2 == v@.subrange(l0 as int, to as int),
            first_quote(r2, 0) == first_quote(r2, (q - l0) as nat),
        decreases to - q,
    {
        q = q + 1;
    }
    proof { lemma_first_quote(r2, 0); }
    if q >= to {
        return None;
    }
    assert(r2.take((q - l0) as int) =~= v@.subrange(l0 as int, q as int));
    Some((l0, q))
}

/// `#include "rel/path"` gives `Some("rel/path")`; any other line `None`.
pub fn parse_include(line: &str) -> (r: Option<String>)
    ensures
        match r {
            Some(p) => include_spec(line@) == Some(p@),
            None => include_spec(line@) is None,
        },
{
    let v = chars_of(line);
    let n = v.len();
    assert(v@.subrange(0, n as int) =~= line@);
    match include_at(&v, 0, n) {
        Some((a, b)) => Some(sub_string(&v, a, b)),
        None => None,
    }
}

/// Parse a `#pragma parameter` argument, `<name> "<label>" <default> <min>
/// <max> [<step>]` (see [`parse_param_spec`]); a malformed one is a
/// [`PreprocessError::BadParameter`] carrying the argument.
pub fn parse_parameter(arg: &str) -> (r: Result<ParameterDecl, PreprocessError>)
    ensures
        match parse_param_spec(arg@) {
            Some(pv) => r matches Ok(p) && p@ == pv,
            None => r matches Err(PreprocessError::BadParameter { line }) && line@ == arg@,
        },
{
    let v = chars_of(arg);
    let n = v.len();
    assert(v@.subrange(0, n as int) =~= arg@);
    match parse_parameter_at(&v, 0, n) {
        Some(p) => Ok(p),
        None => Err(PreprocessError::BadParameter { line: string_from_chars(v.as_slice()) }),
    }
}

/// What one source line means to the preprocessor.
pub enum DirectiveView {
    /// `#pragma stage vertex` or `#pragma stage fragment`: switch to that
    /// stage. A stage pragma naming any other stage is an ordinary line
    /// ([`DirectiveView::Emit`]), kept so that the compiler reports it.
    Stage(Stage),
    /// `#pragma name <arg>`.
    Name(Seq<char>),
    /// `#pragma format <arg>`.
    Format(Seq<char>),
    /// `#pragma parameter <arg>`: the parsed declaration (if well formed) and
    /// the trimmed argument.
    Param(Option<ParamView>, Seq<char>),
    /// Any other line: emitted into the current stage.
    Emit,
}

/// Classify a line (leading whitespace ignored; the keyword after `#pragma`
/// is matched as a prefix, its argument trimmed).
pub open spec fn directive(line: Seq<char>) -> DirectiveView {
    let t = trim_start(line);
    if starts_with(t, "#pragma"@) {
        let rest = trim_start(t.skip(7));
        if starts_with(rest, "stage"@) {
            let arg = trim(rest.skip(5));
            if arg == "vertex"@ {
                DirectiveView::Stage(Stage::Vertex)
            } else if arg == "fragment"@ {
                DirectiveView::Stage(Stage::Fragment)
            } else {
                DirectiveView::Emit
            }
        } else if starts_with(rest, "name"@) {
            DirectiveView::Name(trim(rest.skip(4)))
        } else if starts_with(rest, "format"@) {
            DirectiveView::Format(trim(rest.skip(6)))
        } else if starts_with(rest, "parameter"@) {
            let arg = trim(rest.skip(9));
            DirectiveView::Param(parse_param_spec(arg), arg)
        } else {
            DirectiveView::Emit
        }
    } else {
        DirectiveView::Emit
    }
}

/// The preprocessor's state after some lines.
pub struct PpView {
    pub common: Seq<char>,
    pub vertex: Seq<char>,
    pub fragment: Seq<char>,
    pub current: Option<Stage>,
    pub saw_stage: bool,
    pub name: Option<Seq<char>>,
    pub format: Option<Seq<char>>,
    pub params: Seq<ParamView>,
}

/// The initial state.
pub open spec fn pp_start() -> PpView {
    PpView {
        common: Seq::empty(),
        vertex: Seq::empty(),
        fragment: Seq::empty(),
        current: None,
        saw_stage: false,
        name: None,
        format: None,
        params: Seq::empty(),
    }
}

/// One line's effect; `Err` carries the argument of a malformed parameter.
pub open spec fn pp_step(st: PpView, line: Seq<char>) -> Result<PpView, Seq<char>> {
    match directive(line) {
        DirectiveView::Stage(s) => Ok(PpView { current: Some(s), saw_stage: true, ..st }),
        DirectiveView::Name(n) => Ok(PpView { name: Some(n), ..st }),
        DirectiveView::Format(f) => Ok(PpView { format: Some(f), ..st }),
        DirectiveView::Param(p, arg) => match p {
            Some(pv) => Ok(PpView { params: st.params.push(pv), ..st }),
            None => Err(arg),
        },
        DirectiveView::Emit => {
            let l = line + seq!['\n'];
            Ok(match st.current {
                None => PpView { common: st.common + l, ..st },
                Some(Stage::Vertex) => PpView { vertex: st.vertex + l, ..st },
                Some(Stage::Fragment) => PpView { fragment: st.fragment + l, ..st },
            })
        },
    }
}

/// The state after all of `ls`, stopping at the first malformed parameter.
pub open spec fn pp_fold(ls: Seq<Seq<char>>) -> Result<PpView, Seq<char>>
    decreases ls.len(),
{
    if ls.len() == 0 {
        Ok(pp_start())
    } else {
        match pp_fold(ls.drop_last()) {
            Ok(st) => pp_step(st, ls.last()),
            Err(e) => Err(e),
        }
    }
}

/// The preprocessed output: `(vertex, fragment, name, format, parameters)`, or
/// `Err(Some(arg))` for a malformed parameter, `Err(None)` when neither a vertex
/// nor a fragment stage was declared. Each stage is the common preamble followed by its own lines.
pub open spec fn preprocess_spec(src: Seq<char>) -> Result<(Seq<char>, Seq<char>, Option<Seq<char>>, Option<Seq<char>>, Seq<ParamView>), Option<Seq<char>>> {
    match pp_fold(lines(src)) {
        Err(arg) => Err(Some(arg)),
        Ok(st) => if !st.saw_stage {
            Err(None)
        } else {
            Ok((st.common + st.vertex, st.common + st.fragment, st.name, st.format, st.params))
        },
    }
}

/// The source lines each section has taken so far: `(common, vertex,
/// fragment)`, in order.
pub open spec fn pp_sections(ls: Seq<Seq<char>>) -> (Seq<Seq<char>>, Seq<Seq<char>>, Seq<Seq<char>>)
    decreases ls.len(),
{
    if ls.len() == 0 {
        (Seq::empty(), Seq::empty(), Seq::empty())
    } else {
        let prev = pp_sections(ls.drop_last());
        let l = ls.last();
        match pp_fold(ls.drop_last()) {
            Ok(st) => if directive(l) is Emit {
                match st.current {
                    None => (prev.0.push(l), prev.1, prev.2),
                    Some(Stage::Vertex) => (prev.0, prev.1.push(l), prev.2),
                    Some(Stage::Fragment) => (prev.0, prev.1, prev.2.push(l)),
                }
            } else {
                prev
            },
            Err(_) => prev,
        }
    }
}

/// A line that the preprocessor keeps: a line of `ls` that is no vertex or
/// fragment stage pragma and no name, format or parameter pragma.
pub open spec fn kept_line(ls: Seq<Seq<char>>, l: Seq<char>) -> bool {
    ls.contains(l) && directive(l) is Emit
}

proof fn lemma_pp_sections(ls: Seq<Seq<char>>)
    requires
        pp_fold(ls) is Ok,
    ensures
        ({
            let st = pp_fold(ls)->Ok_0;
            let sec = pp_sections(ls);
            &&& st.common == joined_lines(sec.0)
            &&& st.vertex == joined_lines(sec.1)
            &&& st.fragment == joined_lines(sec.2)
            &&& forall|i: int| 0 <= i < sec.0.len() ==> kept_line(ls, #[trigger] sec.0[i])
            &&& forall|i: int| 0 <= i < sec.1.len() ==> kept_line(ls, #[trigger] sec.1[i])
            &&& forall|i: int| 0 <= i < sec.2.len() ==> kept_line(ls, #[trigger] sec.2[i])
        }),
    decreases ls.len(),
{
    if ls.len() > 0 {
        let pre = ls.drop_last();
        lemma_pp_sections(pre);
        let prev = pp_sections(pre);
        let l = ls.last();
        assert forall|x: Seq<char>| kept_line(pre, x) implies kept_line(ls, x) by {
            let j = choose|j: int| 0 <= j < pre.len() && pre[j] == x;
            assert(ls[j] == x);
        }
        assert(ls[ls.len() - 1] == l);
        let sec = pp_sections(ls);
        assert forall|i: int| 0 <= i < sec.0.len() implies kept_line(ls, #[trigger] sec.0[i]) by {
            if i < prev.0.len() { assert(sec.0[i] == prev.0[i]); assert(kept_line(pre, prev.0[i])); }
        }
        assert forall|i: int| 0 <= i < sec.1.len() implies kept_line(ls, #[trigger] sec.1[i]) by {
            if i < prev.1.len() { assert(sec.1[i] == prev.1[i]); assert(kept_line(pre, prev.1[i])); }
        }
        assert forall|i: int| 0 <= i < sec.2.len() implies kept_line(ls, #[trigger] sec.2[i]) by {
            if i < prev.2.len() { assert(sec.2[i] == prev.2[i]); assert(kept_line(pre, prev.2[i])); }
        }
        let st = pp_fold(pre)->Ok_0;
        if directive(l) is Emit {
            match st.current {
                None => assert(prev.0.push(l).drop_last() =~= prev.0),
                Some(Stage::Vertex) => assert(prev.1.push(l).drop_last() =~= prev.1),
                Some(Stage::Fragment) => assert(prev.2.push(l).drop_last() =~= prev.2),
            }
        }
    }
}

/// The stage code holds only kept source lines: the vertex code is the common
/// lines followed by the vertex lines, the fragment code the common lines
/// followed by the fragment lines, each line ending in a newline, and none of
/// them is a vertex or fragment stage pragma or a name, format or parameter
/// pragma.
pub proof fn lemma_stage_code_has_no_meta_pragmas(src: Seq<char>)
    requires
        preprocess_spec(src) is Ok,
    ensures
        ({
            let out = preprocess_spec(src)->Ok_0;
            let sec = pp_sections(lines(src));
            &&& out.0 == joined_lines(sec.0) + joined_lines(sec.1)
            &&& out.1 == joined_lines(sec.0) + joined_lines(sec.2)
            &&& forall|i: int| 0 <= i < sec.0.len() ==> kept_line(lines(src), #[trigger] sec.0[i])
            &&& forall|i: int| 0 <= i < sec.1.len() ==> kept_line(lines(src), #[trigger] sec.1[i])
            &&& forall|i: int| 0 <= i < sec.2.len() ==> kept_line(lines(src), #[trigger] sec.2[i])
        }),
{
    lemma_pp_sections(lines(src));
}

/// Once the fold fails on a prefix, it fails the same way on the whole.
proof fn lemma_pp_fold_err(ls: Seq<Seq<char>>, k: int)
    requires
        0 <= k <= ls.len(),
        pp_fold(ls.take(k)) is Err,
    ensures
        pp_fold(ls) == pp_fold(ls.take(k)),
    decreases ls.len() - k,
{
    if k == ls.len() {
        assert(ls.take(k) =~= ls);
    } else {
        assert(ls.take(k + 1).drop_last() =~= ls.take(k));
        lemma_pp_fold_err(ls, k + 1);
    }
}

/// The characters of an optional string.
pub open spec fn opt_chars(o: Option<String>) -> Option<Seq<char>> {
    match o { Some(s) => Some(s@), None => None }
}

/// The executable form of [`DirectiveView`].
enum Directive {
    Stage(Stage),
    Name(String),
    Format(String),
    Param(Option<ParameterDecl>, String),
    Emit,
}

spec fn directive_view(d: Directive) -> DirectiveView {
    match d {
        Directive::Stage(s) => DirectiveView::Stage(s),
        Directive::Name(n) => DirectiveView::Name(n@),
        Directive::Format(f) => DirectiveView::Format(f@),
        Directive::Param(p, a) => DirectiveView::Param(match p { Some(x) => Some(x@), None => None }, a@),
        Directive::Emit => DirectiveView::Emit,
    }
}

proof fn lemma_trim_start_skip(v: Seq<char>, a: int, b: int, r: int)
    requires
        0 <= a <= b <= v.len(),
        r == a + leading_ws(v.subrange(a, b)),
    ensures
        trim_start(v.subrange(a, b)) == v.subrange(r, b),
{
    crate::text::lemma_leading_ws_bound(v.subrange(a, b));
    assert(trim_start(v.subrange(a, b)) =~= v.subrange(r, b));
}

fn classify_line(line: &Vec<char>) -> (d: Directive)
    ensures
        directive_view(d) == directive(line@),
{
    let n = line.len();
    let t = skip_ws(line, 0, n);
    proof { lemma_trim_start_skip(line@, 0, n as int, t as int); }
    assert(line@.subrange(0, n as int) =~= line@);
    if !starts_with_at(line, t, n, "#pragma") {
        return Directive::Emit;
    }
    proof { reveal_strlit("#pragma"); }
    let r = skip_ws(line, t + 7, n);
    proof {
        assert(line@.subrange(t as int, n as int).skip(7) =~= line@.subrange(t + 7, n as int));
        lemma_trim_start_skip(line@, t + 7, n as int, r as int);
    }
    if starts_with_at(line, r, n, "stage") {
        proof { reveal_strlit("stage"); }
        let (a, b) = trim_range(line, r + 5, n);
        assert(line@.subrange(r as int, n as int).skip(5) =~= line@.subrange(r + 5, n as int));
        let arg = sub_vec(line, a, b);
        if crate::text::eq_str(&arg, "vertex") {
            return Directive::Stage(Stage::Vertex);
        } else if crate::text::eq_str(&arg, "fragment") {
            return Directive::Stage(Stage::Fragment);
        }
        return Directive::Emit;
    }
    if starts_with_at(line, r, n, "name") {
        proof { reveal_strlit("name"); }
        let (a, b) = trim_range(line, r + 4, n);
        assert(line@.subrange(r as int, n as int).skip(4) =~= line@.subrange(r + 4, n as int));
        return Directive::Name(sub_string(line, a, b));
    }
    if starts_with_at(line, r, n, "format") {
        proof { reveal_strlit("format"); }
        let (a, b) = trim_range(line, r + 6, n);
        assert(line@.subrange(r as int, n as int).skip(6) =~= line@.subrange(r + 6, n as int));
        return Directive::Format(sub_string(line, a, b));
    }
    if starts_with_at(line, r, n, "parameter") {
        proof { reveal_strlit("parameter"); }
        let (a, b) = trim_range(line, r + 9, n);
        assert(line@.subrange(r as int, n as int).skip(9) =~= line@.subrange(r + 9, n as int));
        let p = parse_parameter_at(line, a, b);
        return Directive::Param(p, sub_string(line, a, b));
    }
    Directive::Emit
}

/// Split a `.slang` source into per-stage GLSL plus reflection (call after
/// include resolution). Lines before the first `#pragma stage vertex` or
/// `#pragma stage fragment` are common to both stages, and each such line
/// switches stage; a stage pragma naming another stage is kept as code; `#pragma name`, `format` and
/// `parameter` are extracted and stripped; everything else is kept.
///
/// Fails with [`PreprocessError::BadParameter`] (carrying the trimmed
/// argument) at the first malformed `#pragma parameter`, and with
/// [`PreprocessError::MissingStage`] when neither `#pragma stage vertex` nor
/// `#pragma stage fragment` appears.
pub fn preprocess(source: &str) -> (r: Result<Preprocessed, PreprocessError>)
    ensures
        match r {
            Ok(p) => preprocess_spec(source@) == Ok::<_, Option<Seq<char>>>((p.vertex@, p.fragment@,
                match p.reflection.name { Some(n) => Some(n@), None => None },
                match p.reflection.format { Some(f) => Some(f@), None => None },
                p.reflection.parameters@.map_values(|d: ParameterDecl| d@))),
            Err(PreprocessError::BadParameter { line }) => preprocess_spec(source@) == Err::<(Seq<char>, Seq<char>, Option<Seq<char>>, Option<Seq<char>>, Seq<ParamView>), Option<Seq<char>>>(Some(line@)),
            Err(PreprocessError::MissingStage) => preprocess_spec(source@) == Err::<(Seq<char>, Seq<char>, Option<Seq<char>>, Option<Seq<char>>, Seq<ParamView>), Option<Seq<char>>>(None),
            Err(_) => false,
        },
{
    let chars = chars_of(source);
    let ls = lines_of(&chars);
    let ghost lv = ls@.map_values(|l: Vec<char>| l@);
    let mut common: Vec<char> = Vec::new();
    let mut vertex: Vec<char> = Vec::new();
    let mut fragment: Vec<char> = Vec::new();
    let mut current: Option<Stage> = None;
    let mut saw_stage = false;
    let mut name: Option<String> = None;
    let mut format: Option<String> = None;
    let mut params: Vec<ParameterDecl> = Vec::new();
    let mut i: usize = 0;
    assert(lv.take(0) =~= Seq::<Seq<char>>::empty());
    assert(common@ =~= Seq::<char>::empty());
    assert(vertex@ =~= Seq::<char>::empty());
    assert(fragment@ =~= Seq::<char>::empty());
    assert(params@.map_values(|d: ParameterDecl| d@) =~= Seq::<ParamView>::empty());
    while i < ls.len()
        invariant
            i <= ls@.len(),
            lv == ls@.map_values(|l: Vec<char>| l@),
            lv == lines(source@),
            pp_fold(lv.take(i as int)) == Ok::<PpView, Seq<char>>(PpView {
                common: common@,
                vertex: vertex@,
                fragment: fragment@,
                current,
                saw_stage,
                name: opt_chars(name),
                format: opt_chars(format),
                params: params@.map_values(|d: ParameterDecl| d@),
            }),
        decreases ls@.len() - i,
    {
        let line = &ls[i];
        assert(lv.take(i + 1).drop_last() =~= lv.take(i as int));
        assert(lv[i as int] == line@);
        assert(lv.take(i + 1).last() == line@);
        let d = classify_line(line);
        let ghost st0 = PpView {
            common: common@,
            vertex: vertex@,
            fragment: fragment@,
            current,
            saw_stage,
            name: opt_chars(name),
            format: opt_chars(format),
            params: params@.map_values(|d: ParameterDecl| d@),
        };
        assert(pp_fold(lv.take(i + 1)) == pp_step(st0, line@));
        match d {
            Directive::Stage(st) => {
                current = Some(st);
                saw_stage = true;
            },
            Directive::Name(n) => { name = Some(n); },
            Directive::Format(f) => { format = Some(f); },
            Directive::Param(p, arg) => {
                match p {
                    Some(pd) => {
                        let ghost before = params@.map_values(|d: ParameterDecl| d@);
                        let ghost pv = pd@;
                        params.push(pd);
                        assert(params@.map_values(|d: ParameterDecl| d@) =~= before.push(pv));
                    },
                    None => {
                        proof { lemma_pp_fold_err(lv, i + 1); }
                        return Err(PreprocessError::BadParameter { line: arg });
                    },
                }
            },
            Directive::Emit => {
                assert(line@.subrange(0, line@.len() as int) =~= line@);
                assert(directive(line@) == DirectiveView::Emit);
                match current {
                    None => {
                        append_range(&mut common, line, 0, line.len());
                        common.push('\n');
                        assert(common@ =~= st0.common + (line@ + seq!['\n']));
                    },
                    Some(Stage::Vertex) => {
                        append_range(&mut vertex, line, 0, line.len());
                        vertex.push('\n');
                        assert(vertex@ =~= st0.vertex + (line@ + seq!['\n']));
                    },
                    Some(Stage::Fragment) => {
                        append_range(&mut fragment, line, 0, line.len());
                        fragment.push('\n');
                        assert(fragment@ =~= st0.fragment + (line@ + seq!['\n']));
                    },
                }
            },
        }
        proof {
            let st1 = PpView {
                common: common@,
                vertex: vertex@,
                fragment: fragment@,
                current,
                saw_stage,
                name: opt_chars(name),
                format: opt_chars(format),
                params: params@.map_values(|d: ParameterDecl| d@),
            };
            assert(pp_step(st0, line@) == Ok::<PpView, Seq<char>>(st1));
        }
        i = i + 1;
    }
    assert(lv.take(ls@.len() as int) =~= lv);
    if !saw_stage {
        return Err(PreprocessError::MissingStage);
    }
    let mut v_out = common.clone();
    let mut f_out = common.clone();
    append_range(&mut v_out, &vertex, 0, vertex.len());
    append_range(&mut f_out, &fragment, 0, fragment.len());
    assert(vertex@.subrange(0, vertex@.len() as int) =~= vertex@);
    assert(fragment@.subrange(0, fragment@.len() as int) =~= fragment@);
    Ok(Preprocessed {
        vertex: string_from_chars(v_out.as_slice()),
        fragment: string_from_chars(f_out.as_slice()),
        reflection: Reflection { name, format, parameters: params },
    })
}

} // verus!
