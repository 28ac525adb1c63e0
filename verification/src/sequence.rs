//! Which files of a directory form a numbered PNG sequence, and in what order
//! they play: regular files with a `png` extension (any letter case) whose stem
//! ends in digits, ordered by that number (numerically, so `frame_2` precedes
//! `frame_10`) and then by file name. Listing the directory and decoding the
//! files are the caller's.

use vstd::prelude::*;
use crate::preprocess::{eq_ignore_case, lower};
use crate::source::{trailing_number_spec, trailing_number_of};
use crate::text::{chars_of_string, sub_vec};

verus! {

/// A directory entry as the sequence loader sees it.
#[derive(Debug, Clone, PartialEq, Eq)]
pub struct DirEntryInfo {
    /// The file name (the last path component).
    pub name: String,
    /// Whether the entry is a regular file.
    pub is_file: bool,
}

/// The index of the last `'.'` in `s`, if any.
pub open spec fn last_dot(s: Seq<char>) -> Option<nat>
    decreases s.len(),
{
    if s.len() == 0 {
        None
    } else if s.last() == '.' {
        Some((s.len() - 1) as nat)
    } else {
        last_dot(s.drop_last())
    }
}

/// A file name's extension: the text after its last `'.'`; none without a
/// dot, or when the only dot starts the name.
pub open spec fn extension_spec(name: Seq<char>) -> Option<Seq<char>> {
    match last_dot(name) {
        None => None,
        Some(d) => if d == 0 { None } else { Some(name.skip((d + 1) as int)) },
    }
}

/// A file name's stem: the text before its last `'.'`; the whole name without
/// a dot, or when the only dot starts the name.
pub open spec fn stem_spec(name: Seq<char>) -> Seq<char> {
    match last_dot(name) {
        None => name,
        Some(d) => if d == 0 { name } else { name.take(d as int) },
    }
}

/// Whether an entry belongs to the sequence.
pub open spec fn in_sequence(e: DirEntryInfo) -> bool {
    &&& e.is_file
    &&& extension_spec(e.name@) matches Some(x) && eq_ignore_case(x, "png"@)
    &&& trailing_number_spec(stem_spec(e.name@)) is Some
}

/// An entry's place in the order: its number, then its name.
pub open spec fn seq_key(e: DirEntryInfo) -> (u64, Seq<char>) {
    (trailing_number_spec(stem_spec(e.name@))->0, e.name@)
}

/// Lexicographic order on character sequences (by code point).
pub open spec fn chars_lt(a: Seq<char>, b: Seq<char>) -> bool
    decreases a.len(),
{
    if a.len() == 0 {
        b.len() > 0
    } else if b.len() == 0 {
        false
    } else if a[0] != b[0] {
        (a[0] as u32) < (b[0] as u32)
    } else {
        chars_lt(a.drop_first(), b.drop_first())
    }
}

/// Key order: by number, then by name.
pub open spec fn key_lt(a: (u64, Seq<char>), b: (u64, Seq<char>)) -> bool {
    a.0 < b.0 || (a.0 == b.0 && chars_lt(a.1, b.1))
}

proof fn lemma_chars_lt_irreflexive(a: Seq<char>)
    ensures
        !chars_lt(a, a),
    decreases a.len(),
{
    if a.len() > 0 {
        lemma_chars_lt_irreflexive(a.drop_first());
    }
}

proof fn lemma_chars_lt_transitive(a: Seq<char>, b: Seq<char>, c: Seq<char>)
    requires
        chars_lt(a, b),
        chars_lt(b, c),
    ensures
        chars_lt(a, c),
    decreases a.len(),
{
    if a.len() > 0 && b.len() > 0 && c.len() > 0 && a[0] == b[0] && b[0] == c[0] {
        lemma_chars_lt_transitive(a.drop_first(), b.drop_first(), c.drop_first());
    }
}

proof fn lemma_key_lt(a: (u64, Seq<char>), b: (u64, Seq<char>), c: (u64, Seq<char>))
    ensures
        !key_lt(a, a),
        key_lt(a, b) && key_lt(b, c) ==> key_lt(a, c),
{
    lemma_chars_lt_irreflexive(a.1);
    if key_lt(a, b) && key_lt(b, c) && a.0 == b.0 && b.0 == c.0 {
        lemma_chars_lt_transitive(a.1, b.1, c.1);
    }
}

/// Whether `a` sorts strictly before `b` by [`key_lt`].
fn key_less(a: &(u64, Vec<char>), b: &(u64, Vec<char>)) -> (r: bool)
    ensures
        r == key_lt((a.0, a.1@), (b.0, b.1@)),
{
    if a.0 != b.0 {
        return a.0 < b.0;
    }
    let x = &a.1;
    let y = &b.1;
    let mut i: usize = 0;
    assert(x@.skip(0) =~= x@);
    assert(y@.skip(0) =~= y@);
    while i < x.len() && i < y.len() && x[i] == y[i]
        invariant
            i <= x@.len(),
            i <= y@.len(),
            chars_lt(x@, y@) == chars_lt(x@.skip(i as int), y@.skip(i as int)),
        decreases x@.len() - i,
    {
        assert(x@.skip(i as int).drop_first() =~= x@.skip(i + 1));
        assert(y@.skip(i as int).drop_first() =~= y@.skip(i + 1));
        i = i + 1;
    }
    if i == x.len() {
        i < y.len()
    } else if i == y.len() {
        false
    } else {
        assert(x@.skip(i as int)[0] == x@[i as int]);
        assert(y@.skip(i as int)[0] == y@[i as int]);
        (x[i] as u32) < (y[i] as u32)
    }
}

/// The extension and stem bounds of a name: `(ext_start, stem_end)` where the
/// extension is `name[ext_start..]` (if any) and the stem `name[..stem_end]`.
fn split_name(name: &Vec<char>) -> (r: (Option<usize>, usize))
    ensures
        match r.0 {
            Some(e) => e <= name@.len() && extension_spec(name@) == Some(name@.skip(e as int)),
            None => extension_spec(name@) is None,
        },
        r.1 <= name@.len(),
        stem_spec(name@) == name@.take(r.1 as int),
{
    let mut j = name.len();
    assert(name@.take(j as int) =~= name@);
    while j > 0 && name[j - 1] != '.'
        invariant
            j <= name@.len(),
            last_dot(name@) == last_dot(name@.take(j as int)),
        decreases j,
    {
        assert(name@.take(j as int).drop_last() =~= name@.take(j - 1));
        j = j - 1;
    }
    if j == 0 {
        assert(name@.take(0) =~= Seq::<char>::empty());
        assert(name@.take(name@.len() as int) =~= name@);
        return (None, name.len());
    }
    let d = j - 1;
    assert(name@.take(j as int).last() == '.');
    assert(last_dot(name@) == Some(d as nat));
    if d == 0 {
        assert(name@.take(name@.len() as int) =~= name@);
        (None, name.len())
    } else {
        (Some(d + 1), d)
    }
}

/// Whether `v[from..]` is `png` in any letter case.
fn is_png_ext(v: &Vec<char>, from: usize) -> (r: bool)
    requires
        from <= v@.len(),
    ensures
        r == eq_ignore_case(v@.skip(from as int), "png"@),
{
    proof { reveal_strlit("png"); }
    if v.len() - from != 3 {
        return false;
    }
    let mut i: usize = 0;
    let w = ['p', 'n', 'g'];
    assert(w@ == "png"@);
    while i < 3
        invariant
            i <= 3,
            v@.len() - from == 3,
            from + 3 == v.len(),
            w@ == "png"@,
            forall|k: int| 0 <= k < i ==> lower(#[trigger] v@.skip(from as int)[k]) == "png"@[k],
        decreases 3 - i,
    {
        let c = v[from + i];
        assert(v@.skip(from as int)[i as int] == c);
        let l = if 'A' <= c && c <= 'Z' { ((c as u32) + 32) as u8 as char } else { c };
        if l != w[i] {
            return false;
        }
        i = i + 1;
    }
    true
}

/// The entries of a directory that form a numbered PNG sequence, as indices
/// into `entries`, in play order: each selected entry exactly once, ordered by
/// number then name.
pub fn sequence_order(entries: &Vec<DirEntryInfo>) -> (order: Vec<usize>)
    ensures
        forall|k: int| 0 <= k < order@.len() ==> (#[trigger] order@[k]) < entries@.len()
            && in_sequence(entries@[order@[k] as int]),
        forall|i: int| 0 <= i < entries@.len() && in_sequence(#[trigger] entries@[i]) ==>
            exists|k: int| 0 <= k < order@.len() && order@[k] == i,
        forall|j: int, k: int| 0 <= j < k < order@.len() ==> (#[trigger] order@[j]) != (#[trigger] order@[k]),
        forall|j: int, k: int| 0 <= j < k < order@.len() ==>
            !key_lt(seq_key(entries@[order@[k] as int]), seq_key(entries@[order@[j] as int])),
{
    let mut order: Vec<usize> = Vec::new();
    let mut keys: Vec<(u64, Vec<char>)> = Vec::new();
    let mut i: usize = 0;
    while i < entries.len()
        invariant
            i <= entries@.len(),
            keys@.len() == order@.len(),
            forall|k: int| 0 <= k < order@.len() ==> (#[trigger] order@[k]) < i
                && in_sequence(entries@[order@[k] as int])
                && (keys@[k].0, keys@[k].1@) == seq_key(entries@[order@[k] as int]),
            forall|x: int| 0 <= x < i && in_sequence(#[trigger] entries@[x]) ==>
                exists|k: int| 0 <= k < order@.len() && order@[k] == x,
            forall|j: int, k: int| 0 <= j < k < order@.len() ==> (#[trigger] order@[j]) != (#[trigger] order@[k]),
            forall|j: int, k: int| 0 <= j < k < order@.len() ==>
                !key_lt((keys@[k].0, keys@[k].1@), (keys@[j].0, keys@[j].1@)),
        decreases entries@.len() - i,
    {
        let e = &entries[i];
        let name = chars_of_string(&e.name);
        let (ext, stem_end) = split_name(&name);
        let png = match ext {
            Some(x) => is_png_ext(&name, x),
            None => false,
        };
        let stem = sub_vec(&name, 0, stem_end);
        let num = trailing_number_of(&stem);
        proof {
            assert(name@.take(stem_end as int) =~= name@.subrange(0, stem_end as int));
        }
        if e.is_file && png && num.is_some() {
            let n = match num { Some(n) => n, None => 0 };
            let key = (n, name);
            assert((key.0, key.1@) == seq_key(entries@[i as int]));
            // Find where the new entry goes: before the first strictly larger key.
            let mut p: usize = 0;
            while p < keys.len() && !key_less(&key, &keys[p])
                invariant
                    p <= keys@.len(),
                    forall|q: int| 0 <= q < p ==> !key_lt((key.0, key.1@), (#[trigger] keys@[q].0, keys@[q].1@)),
                decreases keys@.len() - p,
            {
                p = p + 1;
            }
            let ghost ko = keys@;
            let ghost oo = order@;
            proof {
                if p < keys@.len() {
                    assert(key_lt((key.0, key.1@), (keys@[p as int].0, keys@[p as int].1@)));
                }
            }
            keys.insert(p, key);
            order.insert(p, i);
            proof {
                assert(keys@ == ko.insert(p as int, key));
                assert(order@ == oo.insert(p as int, i));
                assert forall|j: int, k: int| 0 <= j < k < order@.len() implies
                    !key_lt((keys@[k].0, keys@[k].1@), (keys@[j].0, keys@[j].1@)) by {
                    let kj = (keys@[j].0, keys@[j].1@);
                    let kk = (keys@[k].0, keys@[k].1@);
                    if j < p && k < p {
                        assert(keys@[j] == ko[j] && keys@[k] == ko[k]);
                    } else if j < p && k == p {
                        assert(keys@[j] == ko[j]);
                    } else if j < p && k > p {
                        assert(keys@[j] == ko[j] && keys@[k] == ko[k - 1]);
                    } else if j == p {
                        assert(keys@[k] == ko[k - 1]);
                        let kp = (ko[p as int].0, ko[p as int].1@);
                        lemma_key_lt(kk, (key.0, key.1@), kp);
                        lemma_key_lt(kk, kp, kp);
                        if k - 1 > p {
                            lemma_key_lt(kk, (key.0, key.1@), kp);
                        }
                    } else {
                        assert(keys@[j] == ko[j - 1] && keys@[k] == ko[k - 1]);
                    }
                }
                assert forall|x: int| 0 <= x < i + 1 && in_sequence(#[trigger] entries@[x]) implies
                    exists|k: int| 0 <= k < order@.len() && order@[k] == x by {
                    if x == i {
                        assert(order@[p as int] == i);
                    } else {
                        let k0 = choose|k: int| 0 <= k < oo.len() && oo[k] == x;
                        if k0 < p {
                            assert(order@[k0] == x);
                        } else {
                            assert(order@[k0 + 1] == x);
                        }
                    }
                }
            }
        } else {
            proof {
                assert(!in_sequence(entries@[i as int]));
            }
        }
        i = i + 1;
    }
    order
}

} // verus!
