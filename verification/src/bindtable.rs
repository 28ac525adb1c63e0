//! Reflection-driven per-pass bind tables: classifying the texture names a
//! pass declares into RetroArch texture semantics, and deriving the pass's
//! bind-group layout entries from its reflection.

use vstd::prelude::*;
use crate::text::{chars_of, chars_of_string, vec_eq, eq_str, matches_at, decimal_value,
    trailing_digit_count, count_trailing_digits, lemma_trailing_all_digits, parse_decimal, sub_string};
use crate::reflect::{SpirvReflection, UniformBlock, ResourceBinding, BlockBinding};

verus! {

/// What a reflected texture name refers to, after stripping any trailing index.
#[derive(Debug, Clone, PartialEq, Eq)]
pub enum TextureClass {
    /// `Source` — this pass's input.
    Source,
    /// `Original` — the whole-chain input image.
    Original,
    /// `PassOutputN` / `PassN` — pass `N`'s output this frame.
    PassOutput(usize),
    /// `<alias>` — the output of the pass with that alias.
    Alias(String),
    /// `PassFeedbackN` — pass `N`'s output from the previous frame.
    PassFeedback(usize),
    /// `<alias>Feedback` — the aliased pass's previous-frame output.
    AliasFeedback(String),
    /// `OriginalHistoryN` — the source frame `N` frames ago (`N >= 1`).
    OriginalHistory(usize),
    /// A LUT or other user texture, by name.
    Lut(String),
}

/// The mathematical content of a [`TextureClass`].
pub enum ClassView {
    Source,
    Original,
    PassOutput(nat),
    Alias(Seq<char>),
    PassFeedback(nat),
    AliasFeedback(Seq<char>),
    OriginalHistory(nat),
    Lut(Seq<char>),
}

impl View for TextureClass {
    type V = ClassView;

    open spec fn view(&self) -> ClassView {
        match self {
            TextureClass::Source => ClassView::Source,
            TextureClass::Original => ClassView::Original,
            TextureClass::PassOutput(n) => ClassView::PassOutput(*n as nat),
            TextureClass::Alias(a) => ClassView::Alias(a@),
            TextureClass::PassFeedback(n) => ClassView::PassFeedback(*n as nat),
            TextureClass::AliasFeedback(a) => ClassView::AliasFeedback(a@),
            TextureClass::OriginalHistory(n) => ClassView::OriginalHistory(*n as nat),
            TextureClass::Lut(s) => ClassView::Lut(s@),
        }
    }
}

/// `name` split into a base and its trailing decimal index: present when the
/// name contains a non-digit, ends in at least one digit, and the digits' value
/// fits a `usize`.
pub open spec fn split_indexed_spec(name: Seq<char>) -> Option<(Seq<char>, nat)> {
    let k = trailing_digit_count(name);
    if k == 0 || k == name.len() {
        None
    } else {
        let v = decimal_value(name.subrange(name.len() - k, name.len() as int));
        if v <= usize::MAX {
            Some((name.subrange(0, name.len() - k), v))
        } else {
            None
        }
    }
}

/// The first alias (from index `i` on) that `name` equals, or equals with a
/// `Feedback` suffix.
pub open spec fn alias_match(name: Seq<char>, aliases: Seq<Seq<char>>, i: nat) -> Option<ClassView>
    decreases aliases.len() - i,
{
    if i >= aliases.len() {
        None
    } else if name == aliases[i as int] {
        Some(ClassView::Alias(aliases[i as int]))
    } else if name == aliases[i as int] + "Feedback"@ {
        Some(ClassView::AliasFeedback(aliases[i as int]))
    } else {
        alias_match(name, aliases, i + 1)
    }
}

/// The classification of a texture name given the chain's aliases: exact
/// `Source`/`Original` first, then aliases (and their `Feedback` forms) in
/// order, then the indexed semantics, else a LUT.
pub open spec fn classify_spec(name: Seq<char>, aliases: Seq<Seq<char>>) -> ClassView {
    if name == "Source"@ {
        ClassView::Source
    } else if name == "Original"@ {
        ClassView::Original
    } else {
        match alias_match(name, aliases, 0) {
            Some(c) => c,
            None => match split_indexed_spec(name) {
                Some((base, idx)) => {
                    if base == "PassOutput"@ || base == "Pass"@ {
                        ClassView::PassOutput(idx)
                    } else if base == "PassFeedback"@ {
                        ClassView::PassFeedback(idx)
                    } else if base == "OriginalHistory"@ {
                        if idx == 0 { ClassView::Original } else { ClassView::OriginalHistory(idx) }
                    } else {
                        ClassView::Lut(name)
                    }
                },
                None => ClassView::Lut(name),
            },
        }
    }
}

/// Split `name` into its base (`name[..split]`) and trailing decimal index.
fn split_indexed_at(name: &Vec<char>) -> (r: Option<(usize, usize)>)
    ensures
        match r {
            Some((split, idx)) => split <= name@.len()
                && split_indexed_spec(name@) == Some((name@.subrange(0, split as int), idx as nat)),
            None => split_indexed_spec(name@) is None,
        },
{
    let n = name.len();
    let k = count_trailing_digits(name, n);
    assert(name@.take(n as int) =~= name@);
    if k == 0 || k == n {
        return None;
    }
    proof { lemma_trailing_all_digits(name@); }
    match parse_decimal(name, n - k, n, usize::MAX as u64) {
        Some(v) => Some((n - k, v as usize)),
        None => None,
    }
}

/// Split `PassOutput3` into `("PassOutput", 3)`: a base that is not all
/// digits and its trailing decimal index (which must fit a `usize`).
pub fn split_indexed(name: &str) -> (r: Option<(String, usize)>)
    ensures
        match r {
            Some((base, idx)) => split_indexed_spec(name@) == Some((base@, idx as nat)),
            None => split_indexed_spec(name@) is None,
        },
{
    let chars = chars_of(name);
    match split_indexed_at(&chars) {
        Some((split, idx)) => Some((sub_string(&chars, 0, split), idx)),
        None => None,
    }
}

/// Whether `name[..split]` equals `lit`.
fn base_is(name: &Vec<char>, split: usize, lit: &str) -> (r: bool)
    requires
        split <= name@.len(),
    ensures
        r == (name@.subrange(0, split as int) == lit@),
{
    let l = chars_of(lit);
    if l.len() != split {
        return false;
    }
    let m = matches_at(name, 0, &l);
    proof {
        if !m {
            assert(name@.subrange(0, split as int) != lit@);
        }
    }
    m
}

impl TextureClass {
    /// Classify a reflected texture name given the chain's aliases: exact
    /// `Source`/`Original`, then `<alias>` / `<alias>Feedback` in alias order,
    /// then `PassOutputN`/`PassN`, `PassFeedbackN`, `OriginalHistoryN`
    /// (`OriginalHistory0` is `Original`); anything else is a LUT. Total.
    pub fn classify(name: &str, aliases: &[String]) -> (c: TextureClass)
        ensures
            c@ == classify_spec(name@, aliases@.map_values(|a: String| a@)),
    {
        let chars = chars_of(name);
        let ghost al = aliases@.map_values(|a: String| a@);
        if eq_str(&chars, "Source") {
            return TextureClass::Source;
        }
        if eq_str(&chars, "Original") {
            return TextureClass::Original;
        }
        let fb = chars_of("Feedback");
        let mut i: usize = 0;
        while i < aliases.len()
            invariant
                i <= aliases@.len(),
                chars@ == name@,
                fb@ == "Feedback"@,
                name@ != "Source"@,
                name@ != "Original"@,
                al == aliases@.map_values(|a: String| a@),
                alias_match(name@, al, 0) == alias_match(name@, al, i as nat),
            decreases aliases@.len() - i,
        {
            let a = chars_of_string(&aliases[i]);
            assert(al[i as int] == a@);
            if vec_eq(&chars, &a) {
                return TextureClass::Alias(aliases[i].clone());
            }
            let is_fb = a.len() <= chars.len() && chars.len() - a.len() == fb.len()
                && matches_at(&chars, 0, &a) && matches_at(&chars, a.len(), &fb);
            proof {
                if is_fb {
                    assert(chars@ =~= a@ + fb@);
                } else if chars@ == a@ + fb@ {
                    assert(chars@.subrange(0, a@.len() as int) =~= a@);
                    assert(chars@.subrange(a@.len() as int, (a@.len() + fb@.len()) as int) =~= fb@);
                }
            }
            if is_fb {
                return TextureClass::AliasFeedback(aliases[i].clone());
            }
            i = i + 1;
        }
        match split_indexed_at(&chars) {
            Some((split, idx)) => {
                if base_is(&chars, split, "PassOutput") || base_is(&chars, split, "Pass") {
                    TextureClass::PassOutput(idx)
                } else if base_is(&chars, split, "PassFeedback") {
                    TextureClass::PassFeedback(idx)
                } else if base_is(&chars, split, "OriginalHistory") {
                    if idx == 0 {
                        TextureClass::Original
                    } else {
                        TextureClass::OriginalHistory(idx)
                    }
                } else {
                    TextureClass::Lut(name.to_owned())
                }
            },
            None => TextureClass::Lut(name.to_owned()),
        }
    }

    /// Whether the renderer resolves this class itself (`Source`, `Original`,
    /// `PassOutputN`, `<alias>`); the rest go to the resolver hook.
    pub fn is_resolved_by_renderer(&self) -> (b: bool)
        ensures
            b == (self@ is Source || self@ is Original || self@ is PassOutput || self@ is Alias),
    {
        match self {
            TextureClass::Source | TextureClass::Original | TextureClass::PassOutput(_)
            | TextureClass::Alias(_) => true,
            _ => false,
        }
    }
}

/// What a bind-group layout entry binds.
#[derive(Debug, Clone, Copy, PartialEq, Eq, Structural)]
pub enum EntryKind {
    /// A uniform buffer, visible to both stages.
    UniformBuffer,
    /// A filterable 2D float texture, visible to the fragment stage.
    Texture,
    /// A filtering sampler, visible to the fragment stage.
    Sampler,
}

/// One bind-group layout entry: a binding number in set 0 and its kind.
#[derive(Debug, Clone, Copy, PartialEq, Eq, Structural)]
pub struct LayoutEntry {
    pub binding: u32,
    pub kind: EntryKind,
}

/// The entries of the set-0 uniform blocks, in order (push-constant blocks
/// and other sets have none).
pub open spec fn block_entries(b: Seq<UniformBlock>) -> Seq<LayoutEntry>
    decreases b.len(),
{
    if b.len() == 0 {
        Seq::empty()
    } else {
        let prev = block_entries(b.drop_last());
        match b.last().binding {
            BlockBinding::Uniform { set, binding } => if set == 0 {
                prev.push(LayoutEntry { binding, kind: EntryKind::UniformBuffer })
            } else {
                prev
            },
            BlockBinding::PushConstant => prev,
        }
    }
}

/// The entries of the set-0 resources, in order, all of kind `kind`.
pub open spec fn resource_entries(r: Seq<ResourceBinding>, kind: EntryKind) -> Seq<LayoutEntry>
    decreases r.len(),
{
    if r.len() == 0 {
        Seq::empty()
    } else {
        let prev = resource_entries(r.drop_last(), kind);
        if r.last().set == 0 {
            prev.push(LayoutEntry { binding: r.last().binding, kind })
        } else {
            prev
        }
    }
}

/// The first index of `s` whose binding exceeds `b` (or `s.len()`).
pub open spec fn insert_position(s: Seq<LayoutEntry>, b: u32) -> nat
    decreases s.len(),
{
    if s.len() == 0 {
        0
    } else if s[0].binding > b {
        0
    } else {
        1 + insert_position(s.drop_first(), b)
    }
}

/// Stable sort by binding: each entry goes after every earlier entry whose
/// binding is not larger.
pub open spec fn stable_sort(s: Seq<LayoutEntry>) -> Seq<LayoutEntry>
    decreases s.len(),
{
    if s.len() == 0 {
        Seq::empty()
    } else {
        let sorted = stable_sort(s.drop_last());
        sorted.insert(insert_position(sorted, s.last().binding) as int, s.last())
    }
}

/// A pass's set-0 bind-group layout entries: every set-0 uniform block, then
/// every set-0 texture, then every set-0 sampler, stably sorted by binding.
pub open spec fn layout_spec(r: SpirvReflection) -> Seq<LayoutEntry> {
    stable_sort(block_entries(r.blocks@) + resource_entries(r.textures@, EntryKind::Texture)
        + resource_entries(r.samplers@, EntryKind::Sampler))
}

proof fn lemma_insert_position(s: Seq<LayoutEntry>, b: u32)
    ensures
        insert_position(s, b) <= s.len(),
        forall|k: int| 0 <= k < insert_position(s, b) ==> s[k].binding <= b,
        insert_position(s, b) < s.len() ==> s[insert_position(s, b) as int].binding > b,
    decreases s.len(),
{
    if s.len() > 0 && s[0].binding <= b {
        lemma_insert_position(s.drop_first(), b);
        assert forall|k: int| 0 <= k < insert_position(s, b) implies s[k].binding <= b by {
            if k > 0 {
                assert(s[k] == s.drop_first()[k - 1]);
            }
        }
    }
}

/// Append `kind` entries for the set-0 resources of `r` to `out`.
fn push_resource_entries(out: &mut Vec<LayoutEntry>, r: &Vec<ResourceBinding>, kind: EntryKind)
    ensures
        final(out)@ == old(out)@ + resource_entries(r@, kind),
{
    let ghost start = out@;
    let mut i: usize = 0;
    assert(r@.take(0) =~= Seq::<ResourceBinding>::empty());
    assert(out@ =~= start + resource_entries(r@.take(0), kind));
    while i < r.len()
        invariant
            i <= r@.len(),
            out@ == start + resource_entries(r@.take(i as int), kind),
        decreases r@.len() - i,
    {
        assert(r@.take(i + 1).drop_last() =~= r@.take(i as int));
        if r[i].set == 0 {
            out.push(LayoutEntry { binding: r[i].binding, kind });
        }
        assert(out@ =~= start + resource_entries(r@.take(i + 1), kind));
        i = i + 1;
    }
    assert(r@.take(r@.len() as int) =~= r@);
}

/// A pass's set-0 bind-group layout entries, from its reflection: one uniform
/// buffer per set-0 uniform block, one texture per set-0 texture and one sampler
/// per set-0 sampler, each at its reflected binding, sorted by binding (entries
/// with equal bindings keep their order). Blocks, textures and samplers in
/// other sets get no entry.
pub fn layout_entries(r: &SpirvReflection) -> (e: Vec<LayoutEntry>)
    ensures
        e@ == layout_spec(*r),
{
    let mut unsorted: Vec<LayoutEntry> = Vec::new();
    let mut i: usize = 0;
    assert(r.blocks@.take(0) =~= Seq::<UniformBlock>::empty());
    while i < r.blocks.len()
        invariant
            i <= r.blocks@.len(),
            unsorted@ == block_entries(r.blocks@.take(i as int)),
        decreases r.blocks@.len() - i,
    {
        assert(r.blocks@.take(i + 1).drop_last() =~= r.blocks@.take(i as int));
        match r.blocks[i].binding {
            BlockBinding::Uniform { set, binding } => {
                if set == 0 {
                    unsorted.push(LayoutEntry { binding, kind: EntryKind::UniformBuffer });
                }
            },
            BlockBinding::PushConstant => {},
        }
        i = i + 1;
    }
    assert(r.blocks@.take(r.blocks@.len() as int) =~= r.blocks@);
    push_resource_entries(&mut unsorted, &r.textures, EntryKind::Texture);
    push_resource_entries(&mut unsorted, &r.samplers, EntryKind::Sampler);
    let ghost all = unsorted@;
    // Stable insertion sort by binding.
    let mut sorted: Vec<LayoutEntry> = Vec::new();
    let mut k: usize = 0;
    assert(all.take(0) =~= Seq::<LayoutEntry>::empty());
    while k < unsorted.len()
        invariant
            k <= unsorted@.len(),
            all == unsorted@,
            sorted@ == stable_sort(all.take(k as int)),
            sorted@.len() == k,
        decreases unsorted@.len() - k,
    {
        let x = unsorted[k];
        let mut p: usize = 0;
        assert(sorted@.skip(0) =~= sorted@);
        while p < sorted.len() && sorted[p].binding <= x.binding
            invariant
                p <= sorted@.len(),
                insert_position(sorted@, x.binding) == p + insert_position(sorted@.skip(p as int), x.binding),
            decreases sorted@.len() - p,
        {
            assert(sorted@.skip(p as int).drop_first() =~= sorted@.skip(p + 1));
            p = p + 1;
        }
        proof {
            if p < sorted@.len() {
                assert(sorted@.skip(p as int)[0] == sorted@[p as int]);
            } else {
                assert(sorted@.skip(p as int) =~= Seq::<LayoutEntry>::empty());
            }
            assert(all.take(k + 1).drop_last() =~= all.take(k as int));
            assert(all.take(k + 1).last() == x);
        }
        sorted.insert(p, x);
        k = k + 1;
    }
    assert(all.take(unsorted@.len() as int) =~= all);
    sorted
}

proof fn lemma_stable_sort(s: Seq<LayoutEntry>)
    ensures
        stable_sort(s).to_multiset() == s.to_multiset(),
        stable_sort(s).len() == s.len(),
        forall|i: int, j: int| 0 <= i < j < stable_sort(s).len() ==>
            (#[trigger] stable_sort(s)[i]).binding <= (#[trigger] stable_sort(s)[j]).binding,
    decreases s.len(),
{
    if s.len() == 0 {
        assert(stable_sort(s) =~= s);
    } else {
        let prev = s.drop_last();
        lemma_stable_sort(prev);
        let sorted = stable_sort(prev);
        let x = s.last();
        let p = insert_position(sorted, x.binding);
        lemma_insert_position(sorted, x.binding);
        vstd::seq_lib::to_multiset_insert(sorted, p as int, x);
        vstd::seq_lib::to_multiset_build(prev, x);
        assert(prev.push(x) =~= s);
        let out = sorted.insert(p as int, x);
        assert forall|i: int, j: int| 0 <= i < j < out.len() implies
            (#[trigger] out[i]).binding <= (#[trigger] out[j]).binding by {
            if j < p {
                assert(out[i] == sorted[i] && out[j] == sorted[j]);
            } else if j == p {
                assert(out[i] == sorted[i]);
            } else if i < p {
                assert(out[i] == sorted[i] && out[j] == sorted[j - 1]);
            } else if i == p {
                assert(out[j] == sorted[j - 1]);
                assert(sorted[p as int].binding <= sorted[j - 1].binding);
            } else {
                assert(out[i] == sorted[i - 1] && out[j] == sorted[j - 1]);
            }
        }
    }
}

/// A pass's layout entries come sorted by binding, and are exactly the
/// set-0 blocks', textures' and samplers' entries (each once).
pub proof fn lemma_layout_sorted(r: SpirvReflection)
    ensures
        forall|i: int, j: int| 0 <= i < j < layout_spec(r).len() ==>
            (#[trigger] layout_spec(r)[i]).binding <= (#[trigger] layout_spec(r)[j]).binding,
        layout_spec(r).to_multiset() == (block_entries(r.blocks@) + resource_entries(r.textures@, EntryKind::Texture)
            + resource_entries(r.samplers@, EntryKind::Sampler)).to_multiset(),
{
    lemma_stable_sort(block_entries(r.blocks@) + resource_entries(r.textures@, EntryKind::Texture)
        + resource_entries(r.samplers@, EntryKind::Sampler));
}

} // verus!
