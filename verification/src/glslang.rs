//! What the library makes of `glslangValidator`'s output: its diagnostics
//! (`ERROR: file:line: message`) and the SPIR-V file it writes.
//!
//! Running the compiler is I/O and stays with the caller; the caller hands the
//! captured text or bytes to these functions.

use vstd::prelude::*;
use crate::preprocess::Stage;
use crate::text::{chars_of, is_digit, all_digits, decimal_value, trim, starts_with, lines,
    lines_of, trim_range, starts_with_at, string_from_chars, sub_vec, parse_decimal};

verus! {

/// A single glslang diagnostic (`ERROR: file:line: message`).
#[derive(Debug, Clone, PartialEq, Eq)]
pub struct Diagnostic {
    pub line: Option<u32>,
    pub message: String,
}

/// Failure compiling one stage.
#[derive(Debug)]
pub enum GlslangError {
    /// `glslangValidator` could not be spawned (not installed / not on PATH).
    ToolNotFound { bin: String, source: std::io::Error },
    /// I/O while staging the temp files or reading SPIR-V back.
    Io(std::io::Error),
    /// glslang rejected the source; carries parsed diagnostics and raw output.
    Compile { stage: Stage, diagnostics: Vec<Diagnostic>, raw: String },
    /// glslang produced SPIR-V that is not a whole number of 32-bit words.
    MalformedSpirv,
}

/// The index of the first `':'` in `s` (or `s.len()`).
pub open spec fn first_colon(s: Seq<char>) -> nat
    decreases s.len(),
{
    if s.len() == 0 {
        0
    } else if s[0] == ':' {
        0
    } else {
        1 + first_colon(s.drop_first())
    }
}

pub proof fn lemma_first_colon(s: Seq<char>)
    ensures
        first_colon(s) <= s.len(),
        first_colon(s) < s.len() ==> s[first_colon(s) as int] == ':',
        forall|i: int| 0 <= i < first_colon(s) ==> s[i] != ':',
    decreases s.len(),
{
    if s.len() > 0 && s[0] != ':' {
        lemma_first_colon(s.drop_first());
        assert forall|i: int| 0 <= i < first_colon(s) implies s[i] != ':' by {
            if i > 0 {
                assert(s[i] == s.drop_first()[i - 1]);
            }
        }
    }
}

/// `t` read as a `u32` the way `str::parse::<u32>` reads it: an optional `'+'`,
/// then one or more decimal digits whose value fits in 32 bits.
pub open spec fn parse_u32_spec(t: Seq<char>) -> Option<u32> {
    let d = if t.len() > 0 && t[0] == '+' { t.drop_first() } else { t };
    if d.len() > 0 && all_digits(d) && decimal_value(d) <= u32::MAX {
        Some(decimal_value(d) as u32)
    } else {
        None
    }
}

/// From `path:line: rest`, the line number and the trimmed message; when the
/// text has no such shape, no line and the whole text trimmed.
pub open spec fn location_spec(body: Seq<char>) -> (Option<u32>, Seq<char>) {
    let c1 = first_colon(body);
    if c1 < body.len() {
        let after = body.skip((c1 + 1) as int);
        let c2 = first_colon(after);
        if c2 < after.len() {
            match parse_u32_spec(trim(after.take(c2 as int))) {
                Some(n) => (Some(n), trim(after.skip((c2 + 1) as int))),
                None => (None, trim(body)),
            }
        } else {
            (None, trim(body))
        }
    } else {
        (None, trim(body))
    }
}

/// The diagnostic a raw output line carries, if any: the trimmed line must
/// start with `"ERROR: "` or `"WARNING: "`, and its message must be non-empty.
pub open spec fn diagnostic_of(line: Seq<char>) -> Option<(Option<u32>, Seq<char>)> {
    let t = trim(line);
    let body = if starts_with(t, "ERROR: "@) {
        Some(t.skip(7))
    } else if starts_with(t, "WARNING: "@) {
        Some(t.skip(9))
    } else {
        None
    };
    match body {
        None => None,
        Some(b) => {
            let (n, m) = location_spec(b);
            if m.len() == 0 { None } else { Some((n, m)) }
        },
    }
}

/// The diagnostics carried by the lines `ls`, in order.
pub open spec fn diagnostics_of(ls: Seq<Seq<char>>) -> Seq<(Option<u32>, Seq<char>)>
    decreases ls.len(),
{
    if ls.len() == 0 {
        Seq::empty()
    } else {
        let prev = diagnostics_of(ls.drop_last());
        match diagnostic_of(ls.last()) {
            Some(d) => prev.push(d),
            None => prev,
        }
    }
}

impl Diagnostic {
    /// The line number and message of a diagnostic.
    pub open spec fn spec_pair(self) -> (Option<u32>, Seq<char>) {
        (self.line, self.message@)
    }
}

/// The index of the first `':'` in `v[from..to]`, as an absolute index.
fn find_colon(v: &Vec<char>, from: usize, to: usize) -> (r: usize)
    requires
        from <= to <= v@.len(),
    ensures
        r == from + first_colon(v@.subrange(from as int, to as int)),
{
    let mut i = from;
    while i < to && v[i] != ':'
        invariant
            from <= i <= to <= v@.len(),
            first_colon(v@.subrange(from as int, to as int))
                == (i - from) + first_colon(v@.subrange(i as int, to as int)),
        decreases to - i,
    {
        assert(v@.subrange(i as int, to as int).drop_first() =~= v@.subrange(i + 1, to as int));
        i = i + 1;
    }
    i
}

/// Parse `v[from..to]` as `str::parse::<u32>` does.
fn parse_u32_at(v: &Vec<char>, from: usize, to: usize) -> (r: Option<u32>)
    requires
        from <= to <= v@.len(),
    ensures
        r == parse_u32_spec(v@.subrange(from as int, to as int)),
{
    let ghost t = v@.subrange(from as int, to as int);
    let s = if from < to && v[from] == '+' { from + 1 } else { from };
    let ghost d = v@.subrange(s as int, to as int);
    assert(d =~= (if t.len() > 0 && t[0] == '+' { t.drop_first() } else { t }));
    if s == to {
        return None;
    }
    let mut i = s;
    while i < to
        invariant
            s <= i <= to <= v@.len(),
            d == v@.subrange(s as int, to as int),
            t == v@.subrange(from as int, to as int),
            d == (if t.len() > 0 && t[0] == '+' { t.drop_first() } else { t }),
            forall|k: int| s <= k < i ==> is_digit(#[trigger] v@[k]),
        decreases to - i,
    {
        if !('0' <= v[i] && v[i] <= '9') {
            assert(d[i - s] == v@[i as int]);
            assert(!all_digits(d));
            return None;
        }
        i = i + 1;
    }
    assert(all_digits(d)) by {
        assert forall|k: int| 0 <= k < d.len() implies is_digit(#[trigger] d[k]) by {
            assert(d[k] == v@[s + k]);
        }
    }
    match parse_decimal(v, s, to, 0xffff_ffffu64) {
        Some(n) => Some(n as u32),
        None => None,
    }
}

/// [`location_spec`] of `v[from..to]`, the message given as bounds into `v`.
fn location_at(v: &Vec<char>, from: usize, to: usize) -> (r: (Option<u32>, usize, usize))
    requires
        from <= to <= v@.len(),
    ensures
        from <= r.1 <= r.2 <= to,
        r.0 == location_spec(v@.subrange(from as int, to as int)).0,
        v@.subrange(r.1 as int, r.2 as int) == location_spec(v@.subrange(from as int, to as int)).1,
{
    let ghost b = v@.subrange(from as int, to as int);
    let c1 = find_colon(v, from, to);
    proof { lemma_first_colon(b); }
    if c1 < to {
        let c2 = find_colon(v, c1 + 1, to);
        proof {
            assert(b.skip(c1 - from + 1) =~= v@.subrange(c1 + 1, to as int));
            lemma_first_colon(v@.subrange(c1 + 1, to as int));
        }
        if c2 < to {
            let (na, nb) = trim_range(v, c1 + 1, c2);
            assert(b.skip(c1 - from + 1).take((c2 - c1 - 1) as int) =~= v@.subrange(c1 + 1, c2 as int));
            if let Some(line) = parse_u32_at(v, na, nb) {
                let (ma, mb) = trim_range(v, c2 + 1, to);
                assert(b.skip(c1 - from + 1).skip((c2 - c1) as int) =~= v@.subrange(c2 + 1, to as int));
                return (Some(line), ma, mb);
            }
        }
    }
    let (ta, tb) = trim_range(v, from, to);
    (None, ta, tb)
}

/// From `path:line: rest` pull out the line number and the trailing message
/// (both trimmed); without that shape, no line and the whole body trimmed.
pub fn parse_location(body: &str) -> (r: (Option<u32>, String))
    ensures
        r.0 == location_spec(body@).0,
        r.1@ == location_spec(body@).1,
{
    let v = chars_of(body);
    let n = v.len();
    assert(v@.subrange(0, n as int) =~= body@);
    let (line, a, b) = location_at(&v, 0, n);
    (line, string_from_chars(sub_vec(&v, a, b).as_slice()))
}

/// Parse glslang's `ERROR: file:line: message` (and `WARNING: ...`) lines into
/// diagnostics, in order; other lines, and diagnostics with an empty message,
/// are skipped.
pub fn parse_diagnostics(raw: &str) -> (out: Vec<Diagnostic>)
    ensures
        out@.map_values(|d: Diagnostic| d.spec_pair()) == diagnostics_of(lines(raw@)),
{
    let chars = chars_of(raw);
    let ls = lines_of(&chars);
    let ghost lv = ls@.map_values(|l: Vec<char>| l@);
    let mut out: Vec<Diagnostic> = Vec::new();
    let mut i: usize = 0;
    assert(lv.take(0) =~= Seq::<Seq<char>>::empty());
    assert(out@.map_values(|d: Diagnostic| d.spec_pair()) =~= Seq::<(Option<u32>, Seq<char>)>::empty());
    while i < ls.len()
        invariant
            i <= ls@.len(),
            lv == ls@.map_values(|l: Vec<char>| l@),
            lv == lines(raw@),
            out@.map_values(|d: Diagnostic| d.spec_pair()) == diagnostics_of(lv.take(i as int)),
        decreases ls@.len() - i,
    {
        let line = &ls[i];
        assert(lv.take(i + 1).drop_last() =~= lv.take(i as int));
        assert(lv.take(i + 1).last() == line@);
        let n = line.len();
        assert(line@.subrange(0, n as int) =~= line@);
        let (a, b) = trim_range(line, 0, n);
        let ghost t = line@.subrange(a as int, b as int);
        let start = if starts_with_at(line, a, b, "ERROR: ") {
            proof { reveal_strlit("ERROR: "); }
            Some(a + 7)
        } else if starts_with_at(line, a, b, "WARNING: ") {
            proof { reveal_strlit("WARNING: "); }
            Some(a + 9)
        } else {
            None
        };
        if let Some(s) = start {
            assert(t.skip((s - a) as int) =~= line@.subrange(s as int, b as int));
            let (line_no, ma, mb) = location_at(line, s, b);
            if ma < mb {
                let message = string_from_chars(sub_vec(line, ma, mb).as_slice());
                let ghost before = out@.map_values(|d: Diagnostic| d.spec_pair());
                let d = Diagnostic { line: line_no, message };
                let ghost dp = d.spec_pair();
                out.push(d);
                assert(out@.map_values(|d: Diagnostic| d.spec_pair()) =~= before.push(dp));
            }
        }
        i = i + 1;
    }
    assert(lv.take(ls@.len() as int) =~= lv);
    out
}

/// The little-endian 32-bit word at word index `i` of `b`.
pub open spec fn le_word(b: Seq<u8>, i: int) -> int {
    b[4 * i] + 256 * b[4 * i + 1] + 65536 * b[4 * i + 2] + 16777216 * b[4 * i + 3]
}

/// The little-endian 32-bit words of `bytes`, or `None` when the length is
/// not a multiple of four.
pub fn le_words(bytes: &[u8]) -> (r: Option<Vec<u32>>)
    ensures
        match r {
            Some(w) => bytes@.len() % 4 == 0 && w@.len() == bytes@.len() / 4
                && forall|i: int| 0 <= i < w@.len() ==> w@[i] == le_word(bytes@, i),
            None => bytes@.len() % 4 != 0,
        },
{
    if bytes.len() % 4 != 0 {
        return None;
    }
    let n = bytes.len() / 4;
    assert(bytes@.len() == bytes.len());
    let mut out: Vec<u32> = Vec::new();
    let mut i: usize = 0;
    while i < n
        invariant
            n == bytes@.len() / 4,
            bytes@.len() % 4 == 0,
            i <= n,
            out@.len() == i,
            forall|k: int| 0 <= k < i ==> out@[k] == le_word(bytes@, k),
        decreases n - i,
    {
        let len = bytes.len();
        assert(4 * i + 3 < len) by (nonlinear_arith)
            requires
                i < n,
                n == len / 4,
                len % 4 == 0;
        let b0 = bytes[4 * i] as u32;
        let b1 = bytes[4 * i + 1] as u32;
        let b2 = bytes[4 * i + 2] as u32;
        let b3 = bytes[4 * i + 3] as u32;
        let w = b0 + 256 * b1 + 65536 * b2 + 16777216 * b3;
        out.push(w);
        i = i + 1;
    }
    Some(out)
}

/// The SPIR-V words of a file glslang wrote: little-endian 32-bit words, or
/// [`GlslangError::MalformedSpirv`] when the length is not a multiple of four.
pub fn spirv_words(bytes: &[u8]) -> (r: Result<Vec<u32>, GlslangError>)
    ensures
        match r {
            Ok(w) => bytes@.len() % 4 == 0 && w@.len() == bytes@.len() / 4
                && forall|i: int| 0 <= i < w@.len() ==> w@[i] == le_word(bytes@, i),
            Err(e) => bytes@.len() % 4 != 0 && e is MalformedSpirv,
        },
{
    match le_words(bytes) {
        Some(w) => Ok(w),
        None => Err(GlslangError::MalformedSpirv),
    }
}

/// The little-endian bytes of SPIR-V words (four per word), as a file holds
/// them.
pub fn spirv_bytes(words: &[u32]) -> (b: Vec<u8>)
    requires
        words@.len() * 4 <= usize::MAX,
    ensures
        b@.len() == words@.len() * 4,
        forall|i: int| 0 <= i < words@.len() ==> le_word(b@, i) == #[trigger] words@[i],
{
    let mut out: Vec<u8> = Vec::new();
    let mut i: usize = 0;
    while i < words.len()
        invariant
            i <= words@.len(),
            words@.len() * 4 <= usize::MAX,
            out@.len() == 4 * i,
            forall|k: int| 0 <= k < i ==> le_word(out@, k) == #[trigger] words@[k],
        decreases words@.len() - i,
    {
        let w = words[i];
        let b0 = (w % 256) as u8;
        let b1 = ((w / 256) % 256) as u8;
        let b2 = ((w / 65536) % 256) as u8;
        let b3 = (w / 16777216) as u8;
        let ghost before = out@;
        out.push(b0);
        out.push(b1);
        out.push(b2);
        out.push(b3);
        assert(le_word(out@, i as int) == w) by {
            assert(out@[4 * i] == b0 && out@[4 * i + 1] == b1 && out@[4 * i + 2] == b2 && out@[4 * i + 3] == b3);
            assert(b0 + 256 * b1 + 65536 * b2 + 16777216 * b3 == w) by (nonlinear_arith)
                requires
                    b0 == w % 256,
                    b1 == (w / 256) % 256,
                    b2 == (w / 65536) % 256,
                    b3 == w / 16777216,
                    w <= 0xffff_ffff;
        }
        assert forall|k: int| 0 <= k < i implies le_word(out@, k) == #[trigger] words@[k] by {
            assert(out@[4 * k] == before[4 * k]);
            assert(out@[4 * k + 1] == before[4 * k + 1]);
            assert(out@[4 * k + 2] == before[4 * k + 2]);
            assert(out@[4 * k + 3] == before[4 * k + 3]);
        }
        i = i + 1;
    }
    out
}

/// Writing words out as little-endian bytes and reading the bytes back as
/// words gives the same words: what [`spirv_bytes`] produces, [`le_words`] and
/// [`spirv_words`] read back unchanged.
pub proof fn lemma_words_round_trip(words: Seq<u32>, bytes: Seq<u8>, back: Seq<u32>)
    requires
        bytes.len() == words.len() * 4,
        forall|i: int| 0 <= i < words.len() ==> le_word(bytes, i) == #[trigger] words[i],
        back.len() == bytes.len() / 4,
        forall|i: int| 0 <= i < back.len() ==> #[trigger] back[i] == le_word(bytes, i),
    ensures
        back == words,
{
    assert(back.len() == words.len());
    assert(back =~= words);
}

} // verus!
