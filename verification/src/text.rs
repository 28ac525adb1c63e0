//! Character-level helpers shared by the text-processing modules.

use vstd::prelude::*;

verus! {

broadcast use vstd::string::group_string_axioms;

/// The characters of `s`, in order.
pub fn chars_of(s: &str) -> (v: Vec<char>)
    ensures
        v@ == s@,
{
    let mut v: Vec<char> = Vec::new();
    for c in it: s.chars()
        invariant
            v@ == it.seq().take(it.index() as int),
            it.seq() == s@,
    {
        v.push(c);
    }
    v
}

/// A `String` holding exactly the characters of `v`, via std's
/// `String::from_iter`, which collects the characters in order.
#[verifier::external_body]
pub fn string_from_chars(v: &[char]) -> (s: String)
    ensures
        s@ == v@,
{
    String::from_iter(v.iter())
}

/// An ASCII decimal digit.
pub open spec fn is_digit(c: char) -> bool {
    '0' <= c && c <= '9'
}

/// The numeric value of an ASCII digit.
pub open spec fn digit_value(c: char) -> nat {
    (c as nat - '0' as nat) as nat
}

/// The value of a run of decimal digits (most significant first).
pub open spec fn decimal_value(s: Seq<char>) -> nat
    decreases s.len(),
{
    if s.len() == 0 {
        0
    } else {
        decimal_value(s.drop_last()) * 10 + digit_value(s.last())
    }
}

/// Every character of `s` is a digit.
pub open spec fn all_digits(s: Seq<char>) -> bool {
    forall|i: int| 0 <= i < s.len() ==> is_digit(#[trigger] s[i])
}

/// The length of the longest run of digits at the end of `s`.
pub open spec fn trailing_digit_count(s: Seq<char>) -> nat
    decreases s.len(),
{
    if s.len() > 0 && is_digit(s.last()) {
        trailing_digit_count(s.drop_last()) + 1
    } else {
        0
    }
}

/// The number of trailing digits of `s[..n]`, computed from the end.
pub fn count_trailing_digits(s: &Vec<char>, n: usize) -> (k: usize)
    requires
        n <= s@.len(),
    ensures
        k == trailing_digit_count(s@.take(n as int)),
        k <= n,
{
    let mut k: usize = 0;
    while k < n && '0' <= s[n - 1 - k] && s[n - 1 - k] <= '9'
        invariant
            k <= n,
            n <= s@.len(),
            trailing_digit_count(s@.take(n as int)) == k + trailing_digit_count(s@.take(n - k)),
        decreases n - k,
    {
        assert(s@.take((n - k) as int).drop_last() =~= s@.take(n - k - 1));
        k = k + 1;
    }
    k
}

/// The value of the decimal digits `s[from..to]` when it is at most `bound`.
pub fn parse_decimal(s: &Vec<char>, from: usize, to: usize, bound: u64) -> (r: Option<u64>)
    requires
        from <= to <= s@.len(),
        all_digits(s@.subrange(from as int, to as int)),
    ensures
        r == if decimal_value(s@.subrange(from as int, to as int)) <= bound {
            Some(decimal_value(s@.subrange(from as int, to as int)) as u64)
        } else {
            None::<u64>
        },
{
    let mut v: u64 = 0;
    let mut over = false;
    let mut i = from;
    while i < to
        invariant
            from <= i <= to <= s@.len(),
            all_digits(s@.subrange(from as int, to as int)),
            over <==> decimal_value(s@.subrange(from as int, i as int)) > bound,
            !over ==> v == decimal_value(s@.subrange(from as int, i as int)),
        decreases to - i,
    {
        let ghost prev = s@.subrange(from as int, i as int);
        assert(s@.subrange(from as int, i + 1).drop_last() =~= prev);
        assert(s@.subrange(from as int, to as int)[i - from] == s@[i as int]);
        let d = (s[i] as u32 - '0' as u32) as u64;
        if !over {
            if d > bound || v > (bound - d) / 10 {
                over = true;
            } else {
                v = v * 10 + d;
            }
        }
        i = i + 1;
    }
    if over { None } else { Some(v) }
}

/// The characters of a `String`, in order.
pub fn chars_of_string(s: &String) -> (v: Vec<char>)
    ensures
        v@ == s@,
{
    chars_of(&**s)
}

/// Whether two character vectors are equal.
pub fn vec_eq(a: &Vec<char>, b: &Vec<char>) -> (r: bool)
    ensures
        r == (a@ == b@),
{
    if a.len() != b.len() {
        return false;
    }
    let mut i: usize = 0;
    while i < a.len()
        invariant
            i <= a@.len(),
            a@.len() == b@.len(),
            forall|j: int| 0 <= j < i ==> a@[j] == b@[j],
        decreases a@.len() - i,
    {
        if a[i] != b[i] {
            return false;
        }
        i = i + 1;
    }
    assert(a@ =~= b@);
    true
}

/// Whether the characters of `a` equal those of `lit`.
pub fn eq_str(a: &Vec<char>, lit: &str) -> (r: bool)
    ensures
        r == (a@ == lit@),
{
    let b = chars_of(lit);
    vec_eq(a, &b)
}

/// Whether `a[from..from + lit.len()]` equals `lit` (false when it would run
/// past the end).
pub fn matches_at(a: &Vec<char>, from: usize, lit: &Vec<char>) -> (r: bool)
    requires
        from <= a@.len(),
    ensures
        r == (from + lit@.len() <= a@.len() && a@.subrange(from as int, from + lit@.len()) == lit@),
{
    let alen = a.len();
    if lit.len() > alen - from {
        return false;
    }
    let mut i: usize = 0;
    while i < lit.len()
        invariant
            i <= lit@.len(),
            alen == a@.len(),
            from + lit@.len() <= alen,
            forall|j: int| 0 <= j < i ==> a@[from + j] == lit@[j],
        decreases lit@.len() - i,
    {
        if a[from + i] != lit[i] {
            return false;
        }
        i = i + 1;
    }
    assert(a@.subrange(from as int, from + lit@.len()) =~= lit@);
    true
}

/// The trailing digits of `s` are all digits and no more than `s` itself.
pub proof fn lemma_trailing_all_digits(s: Seq<char>)
    ensures
        trailing_digit_count(s) <= s.len(),
        all_digits(s.subrange(s.len() - trailing_digit_count(s), s.len() as int)),
        trailing_digit_count(s) < s.len() ==> !is_digit(s[s.len() - trailing_digit_count(s) - 1]),
    decreases s.len(),
{
    if s.len() > 0 && is_digit(s.last()) {
        lemma_trailing_all_digits(s.drop_last());
        let k = trailing_digit_count(s);
        assert forall|i: int| 0 <= i < k implies is_digit(#[trigger] s.subrange(s.len() - k, s.len() as int)[i]) by {
            if i < k - 1 {
                assert(s.subrange(s.len() - k, s.len() as int)[i] == s.drop_last().subrange(s.len() - k, s.len() - 1)[i]);
            }
        }
    }
}

/// Unicode `White_Space`, as `char::is_whitespace` defines it.
pub open spec fn is_ws(c: char) -> bool {
    ||| ('\t' <= c && c <= '\r')
    ||| c == ' '
    ||| c == '\u{85}'
    ||| c == '\u{A0}'
    ||| c == '\u{1680}'
    ||| ('\u{2000}' <= c && c <= '\u{200A}')
    ||| c == '\u{2028}'
    ||| c == '\u{2029}'
    ||| c == '\u{202F}'
    ||| c == '\u{205F}'
    ||| c == '\u{3000}'
}

/// Whether `c` is whitespace.
pub fn is_ws_exec(c: char) -> (b: bool)
    ensures
        b == is_ws(c),
{
    ('\t' <= c && c <= '\r') || c == ' ' || c == '\u{85}' || c == '\u{A0}' || c == '\u{1680}'
        || ('\u{2000}' <= c && c <= '\u{200A}') || c == '\u{2028}' || c == '\u{2029}'
        || c == '\u{202F}' || c == '\u{205F}' || c == '\u{3000}'
}

/// The number of leading whitespace characters of `s`.
pub open spec fn leading_ws(s: Seq<char>) -> nat
    decreases s.len(),
{
    if s.len() > 0 && is_ws(s[0]) { 1 + leading_ws(s.drop_first()) } else { 0 }
}

/// The number of trailing whitespace characters of `s`.
pub open spec fn trailing_ws(s: Seq<char>) -> nat
    decreases s.len(),
{
    if s.len() > 0 && is_ws(s.last()) { 1 + trailing_ws(s.drop_last()) } else { 0 }
}

/// `s` without leading whitespace (`str::trim_start`).
pub open spec fn trim_start(s: Seq<char>) -> Seq<char> {
    s.skip(leading_ws(s) as int)
}

/// `s` without trailing whitespace (`str::trim_end`).
pub open spec fn trim_end(s: Seq<char>) -> Seq<char> {
    s.take(s.len() - trailing_ws(s))
}

/// `s` without leading or trailing whitespace (`str::trim`).
pub open spec fn trim(s: Seq<char>) -> Seq<char> {
    trim_end(trim_start(s))
}

/// Whether `s` begins with `p`.
pub open spec fn starts_with(s: Seq<char>, p: Seq<char>) -> bool {
    p.len() <= s.len() && s.take(p.len() as int) == p
}

pub proof fn lemma_leading_ws_bound(s: Seq<char>)
    ensures
        leading_ws(s) <= s.len(),
        forall|i: int| 0 <= i < leading_ws(s) ==> is_ws(#[trigger] s[i]),
        leading_ws(s) < s.len() ==> !is_ws(s[leading_ws(s) as int]),
    decreases s.len(),
{
    if s.len() > 0 && is_ws(s[0]) {
        lemma_leading_ws_bound(s.drop_first());
        assert forall|i: int| 0 <= i < leading_ws(s) implies is_ws(#[trigger] s[i]) by {
            if i > 0 {
                assert(s[i] == s.drop_first()[i - 1]);
            }
        }
    }
}

pub proof fn lemma_trailing_ws_bound(s: Seq<char>)
    ensures
        trailing_ws(s) <= s.len(),
    decreases s.len(),
{
    if s.len() > 0 && is_ws(s.last()) {
        lemma_trailing_ws_bound(s.drop_last());
    }
}

/// The index of the first non-whitespace character of `v[from..to]` (or `to`).
pub fn skip_ws(v: &Vec<char>, from: usize, to: usize) -> (r: usize)
    requires
        from <= to <= v@.len(),
    ensures
        r == from + leading_ws(v@.subrange(from as int, to as int)),
        from <= r <= to,
{
    let mut i = from;
    while i < to && is_ws_exec(v[i])
        invariant
            from <= i <= to <= v@.len(),
            leading_ws(v@.subrange(from as int, to as int)) == (i - from) + leading_ws(v@.subrange(i as int, to as int)),
        decreases to - i,
    {
        assert(v@.subrange(i as int, to as int).drop_first() =~= v@.subrange(i + 1, to as int));
        i = i + 1;
    }
    proof { lemma_leading_ws_bound(v@.subrange(from as int, to as int)); }
    i
}

/// The end of `v[from..to]` with its trailing whitespace removed.
pub fn trim_end_at(v: &Vec<char>, from: usize, to: usize) -> (r: usize)
    requires
        from <= to <= v@.len(),
    ensures
        r == to - trailing_ws(v@.subrange(from as int, to as int)),
        from <= r <= to,
{
    let mut j = to;
    while j > from && is_ws_exec(v[j - 1])
        invariant
            from <= j <= to <= v@.len(),
            trailing_ws(v@.subrange(from as int, to as int)) == (to - j) + trailing_ws(v@.subrange(from as int, j as int)),
        decreases j - from,
    {
        assert(v@.subrange(from as int, j as int).drop_last() =~= v@.subrange(from as int, j - 1));
        j = j - 1;
    }
    proof { lemma_trailing_ws_bound(v@.subrange(from as int, to as int)); }
    j
}

/// `trim` of a subrange, as index bounds.
pub fn trim_range(v: &Vec<char>, from: usize, to: usize) -> (r: (usize, usize))
    requires
        from <= to <= v@.len(),
    ensures
        from <= r.0 <= r.1 <= to,
        v@.subrange(r.0 as int, r.1 as int) == trim(v@.subrange(from as int, to as int)),
{
    let a = skip_ws(v, from, to);
    let b = trim_end_at(v, a, to);
    proof {
        let s = v@.subrange(from as int, to as int);
        assert(trim_start(s) =~= v@.subrange(a as int, to as int));
        assert(trim_end(v@.subrange(a as int, to as int)) =~= v@.subrange(a as int, b as int));
    }
    (a, b)
}

/// Whether `v[from..to]` begins with `lit`.
pub fn starts_with_at(v: &Vec<char>, from: usize, to: usize, lit: &str) -> (b: bool)
    requires
        from <= to <= v@.len(),
    ensures
        b == starts_with(v@.subrange(from as int, to as int), lit@),
{
    let l = chars_of(lit);
    if l.len() > to - from {
        return false;
    }
    let m = matches_at(v, from, &l);
    proof {
        let s = v@.subrange(from as int, to as int);
        assert(s.take(l@.len() as int) =~= v@.subrange(from as int, from + l@.len()));
    }
    m
}

/// A copy of `v[from..to]`.
pub fn sub_vec(v: &Vec<char>, from: usize, to: usize) -> (r: Vec<char>)
    requires
        from <= to <= v@.len(),
    ensures
        r@ == v@.subrange(from as int, to as int),
{
    let mut r: Vec<char> = Vec::new();
    let mut i = from;
    while i < to
        invariant
            from <= i <= to <= v@.len(),
            r@ == v@.subrange(from as int, i as int),
        decreases to - i,
    {
        r.push(v[i]);
        assert(r@ =~= v@.subrange(from as int, i + 1));
        i = i + 1;
    }
    r
}

/// A `String` of `v[from..to]`.
pub fn sub_string(v: &Vec<char>, from: usize, to: usize) -> (s: String)
    requires
        from <= to <= v@.len(),
    ensures
        s@ == v@.subrange(from as int, to as int),
{
    let r = sub_vec(v, from, to);
    string_from_chars(r.as_slice())
}

/// Append `v[from..to]` to `out`.
pub fn append_range(out: &mut Vec<char>, v: &Vec<char>, from: usize, to: usize)
    requires
        from <= to <= v@.len(),
    ensures
        final(out)@ == old(out)@ + v@.subrange(from as int, to as int),
{
    let ghost start = out@;
    let mut i = from;
    while i < to
        invariant
            from <= i <= to <= v@.len(),
            out@ == start + v@.subrange(from as int, i as int),
        decreases to - i,
    {
        out.push(v[i]);
        assert(out@ =~= start + v@.subrange(from as int, i + 1));
        i = i + 1;
    }
}

/// The index of the first `'\n'` at or after `i` (or `s.len()`).
pub open spec fn next_newline(s: Seq<char>, i: nat) -> nat
    decreases s.len() - i,
{
    if i >= s.len() {
        s.len()
    } else if s[i as int] == '\n' {
        i
    } else {
        next_newline(s, i + 1)
    }
}

/// `l` without one trailing `'\r'`.
pub open spec fn strip_cr(l: Seq<char>) -> Seq<char> {
    if l.len() > 0 && l.last() == '\r' { l.drop_last() } else { l }
}

/// The lines of `s[i..]`, as `str::lines` yields them: split after each
/// `'\n'`, the terminator (and a `'\r'` just before it) removed, with no empty
/// line after a final `'\n'`.
pub open spec fn lines_from(s: Seq<char>, i: nat) -> Seq<Seq<char>>
    decreases s.len() - i,
{
    if i >= s.len() {
        Seq::empty()
    } else {
        let j = next_newline(s, i);
        proof { lemma_next_newline(s, i); }
        if j >= s.len() {
            seq![s.subrange(i as int, s.len() as int)]
        } else {
            seq![strip_cr(s.subrange(i as int, j as int))] + lines_from(s, j + 1)
        }
    }
}

/// The lines of `s`.
pub open spec fn lines(s: Seq<char>) -> Seq<Seq<char>> {
    lines_from(s, 0)
}

/// The lines `ls`, each followed by `'\n'`.
pub open spec fn joined_lines(ls: Seq<Seq<char>>) -> Seq<char>
    decreases ls.len(),
{
    if ls.len() == 0 {
        Seq::empty()
    } else {
        joined_lines(ls.drop_last()) + ls.last() + seq!['\n']
    }
}

pub proof fn lemma_next_newline(s: Seq<char>, i: nat)
    ensures
        i <= s.len() ==> i <= next_newline(s, i) <= s.len(),
        next_newline(s, i) < s.len() ==> s[next_newline(s, i) as int] == '\n',
        forall|k: int| i <= k < next_newline(s, i) ==> s[k] != '\n',
    decreases s.len() - i,
{
    if i < s.len() && s[i as int] != '\n' {
        lemma_next_newline(s, i + 1);
    }
}

/// The lines of `v`, each as its own character vector.
pub fn lines_of(v: &Vec<char>) -> (ls: Vec<Vec<char>>)
    ensures
        ls@.map_values(|l: Vec<char>| l@) == lines(v@),
{
    let n = v.len();
    let mut ls: Vec<Vec<char>> = Vec::new();
    let mut i: usize = 0;
    while i < n
        invariant
            n == v@.len(),
            i <= n,
            ls@.map_values(|l: Vec<char>| l@) + lines_from(v@, i as nat) == lines(v@),
        decreases n - i,
    {
        let mut j = i;
        while j < n && v[j] != '\n'
            invariant
                i <= j <= n,
                n == v@.len(),
                next_newline(v@, i as nat) == next_newline(v@, j as nat),
            decreases n - j,
        {
            j = j + 1;
        }
        proof { lemma_next_newline(v@, i as nat); }
        let ghost before = ls@.map_values(|l: Vec<char>| l@);
        if j >= n {
            let line = sub_vec(v, i, n);
            ls.push(line);
            proof {
                assert(ls@.map_values(|l: Vec<char>| l@) =~= before.push(v@.subrange(i as int, n as int)));
                assert(lines_from(v@, n as nat) =~= Seq::<Seq<char>>::empty());
                assert(before + lines_from(v@, i as nat) =~= ls@.map_values(|l: Vec<char>| l@) + lines_from(v@, n as nat));
            }
            i = n;
        } else {
            let end = if j > i && v[j - 1] == '\r' { j - 1 } else { j };
            let line = sub_vec(v, i, end);
            ls.push(line);
            proof {
                assert(strip_cr(v@.subrange(i as int, j as int)) =~= v@.subrange(i as int, end as int));
                assert(ls@.map_values(|l: Vec<char>| l@) =~= before.push(v@.subrange(i as int, end as int)));
                assert(before + lines_from(v@, i as nat) =~= ls@.map_values(|l: Vec<char>| l@) + lines_from(v@, (j + 1) as nat));
            }
            i = j + 1;
        }
    }
    assert(lines_from(v@, n as nat) =~= Seq::<Seq<char>>::empty());
    assert(ls@.map_values(|l: Vec<char>| l@) + Seq::<Seq<char>>::empty() =~= ls@.map_values(|l: Vec<char>| l@));
    ls
}

/// The decimal digits of `n` (no leading zeros; `"0"` for zero).
pub open spec fn decimal_chars(n: nat) -> Seq<char>
    decreases n,
{
    if n < 10 {
        seq![('0' as u32 + n) as char]
    } else {
        decimal_chars(n / 10).push(('0' as u32 + n % 10) as char)
    }
}

/// Append the decimal digits of `n` to `out`.
pub fn push_decimal(out: &mut Vec<char>, n: u64)
    ensures
        final(out)@ == old(out)@ + decimal_chars(n as nat),
    decreases n,
{
    if n >= 10 {
        push_decimal(out, n / 10);
    }
    let d = (n % 10) as u8;
    let c = (48u8 + d) as char;
    assert(c == ('0' as u32 + (n % 10) as nat) as char);
    out.push(c);
    proof {
        if n >= 10 {
            assert(decimal_chars(n as nat) == decimal_chars((n / 10) as nat).push(c));
        }
    }
}

/// Append `lit` to `out`.
pub fn push_lit(out: &mut Vec<char>, lit: &str)
    ensures
        final(out)@ == old(out)@ + lit@,
{
    let l = chars_of(lit);
    append_range(out, &l, 0, l.len());
    assert(l@.subrange(0, l@.len() as int) =~= l@);
}

} // verus!
