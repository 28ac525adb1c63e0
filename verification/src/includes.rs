//! `#include` resolution as a resumable expansion: the resolver walks the
//! source line by line and, at each `#include "path"`, asks its caller for the
//! file's contents (reading files, and joining paths to the including file's
//! directory, are the caller's). Included text is expanded in place,
//! recursively, up to [`MAX_INCLUDE_DEPTH`] levels.
//!
//! Every plain line is emitted followed by `'\n'`; after an included file's
//! expansion a `'\n'` is added when the output does not already end in one.

use vstd::prelude::*;
use crate::preprocess::{include_at, include_spec, PreprocessError, MAX_INCLUDE_DEPTH};
use crate::text::{chars_of, joined_lines, lines, lines_of, append_range, string_from_chars, sub_string};

verus! {

/// One file being expanded: its lines, the next line to read, and the output
/// so far.
pub type FrameView = (Seq<Seq<char>>, nat, Seq<char>);

/// What the resolver needs next.
pub enum StepView {
    /// The contents of `path`, to be expanded at nesting depth `depth`.
    Read(Seq<char>, nat),
    /// The fully expanded source.
    Done(Seq<char>),
    /// An include of `path` would nest deeper than the limit.
    Cycle(Seq<char>),
}

/// Lines still to read plus frames still open: what every step consumes.
pub open spec fn remaining(fs: Seq<FrameView>) -> nat
    decreases fs.len(),
{
    if fs.len() == 0 {
        0
    } else {
        let top = fs.last();
        remaining(fs.drop_last()) + (if top.1 <= top.0.len() { (top.0.len() - top.1) as nat } else { 0 }) + 1
    }
}

/// `out` followed by a `'\n'` unless it already ends in one.
pub open spec fn ensure_newline(out: Seq<char>) -> Seq<char> {
    if out.len() > 0 && out.last() == '\n' { out } else { out.push('\n') }
}

pub proof fn lemma_remaining_update(fs: Seq<FrameView>, i: int, f: FrameView)
    requires
        0 <= i < fs.len(),
        f.0 == fs[i].0,
        f.1 == fs[i].1,
    ensures
        remaining(fs.update(i, f)) == remaining(fs),
    decreases fs.len(),
{
    if i < fs.len() - 1 {
        lemma_remaining_update(fs.drop_last(), i, f);
        assert(fs.update(i, f).drop_last() =~= fs.drop_last().update(i, f));
    } else {
        assert(fs.update(i, f).drop_last() =~= fs.drop_last());
    }
}

/// Run the expansion until it needs a file, finishes, or hits the nesting
/// limit: the new frames and what happened.
pub open spec fn advance_spec(fs: Seq<FrameView>) -> (Seq<FrameView>, StepView)
    decreases remaining(fs),
{
    if fs.len() == 0 {
        (fs, StepView::Done(Seq::empty()))
    } else {
        let top = fs.last();
        let ls = top.0;
        let next = top.1;
        let out = top.2;
        if next >= ls.len() {
            if fs.len() == 1 {
                (Seq::empty(), StepView::Done(out))
            } else {
                let p = fs.len() - 2;
                let parent = fs[p];
                let rest = fs.drop_last().update(p, (parent.0, parent.1, ensure_newline(parent.2 + out)));
                proof {
                    lemma_remaining_update(fs.drop_last(), p, (parent.0, parent.1, ensure_newline(parent.2 + out)));
                }
                advance_spec(rest)
            }
        } else {
            let line = ls[next as int];
            match include_spec(line) {
                None => {
                    let fs2 = fs.update(fs.len() - 1, (ls, next + 1, out + line + seq!['\n']));
                    proof {
                        assert(fs2.drop_last() =~= fs.drop_last());
                    }
                    advance_spec(fs2)
                },
                Some(rel) => if fs.len() - 1 >= MAX_INCLUDE_DEPTH {
                    (fs, StepView::Cycle(rel))
                } else {
                    (fs.update(fs.len() - 1, (ls, next + 1, out)), StepView::Read(rel, fs.len()))
                },
            }
        }
    }
}

/// One open file of the expansion.
struct IncludeFrame {
    lines: Vec<Vec<char>>,
    next: usize,
    out: Vec<char>,
}

impl IncludeFrame {
    spec fn view(&self) -> FrameView {
        (self.lines@.map_values(|l: Vec<char>| l@), self.next as nat, self.out@)
    }
}

/// What the caller must do after [`IncludeResolver::step`].
#[derive(Debug)]
pub enum IncludeStep {
    /// Read `path` (relative to the including file's directory) and hand its
    /// contents to [`IncludeResolver::supply`]; it is expanded at nesting
    /// `depth` (the top-level source is depth 0).
    Read { path: String, depth: usize },
    /// The fully expanded source.
    Done(String),
    /// Expansion failed.
    Failed(PreprocessError),
}

/// A resumable `#include` expansion.
pub struct IncludeResolver {
    frames: Vec<IncludeFrame>,
}

impl IncludeResolver {
    /// The open files, outermost first.
    pub closed spec fn frames_view(&self) -> Seq<FrameView> {
        self.frames@.map_values(|f: IncludeFrame| f.view())
    }

    /// Start expanding `source` (nothing read yet).
    pub fn new(source: &str) -> (r: IncludeResolver)
        ensures
            r.frames_view() == seq![(lines(source@), 0nat, Seq::<char>::empty())],
    {
        let chars = chars_of(source);
        let ls = lines_of(&chars);
        let frame = IncludeFrame { lines: ls, next: 0, out: Vec::new() };
        let mut frames: Vec<IncludeFrame> = Vec::new();
        frames.push(frame);
        let r = IncludeResolver { frames };
        assert(r.frames_view() =~= seq![(lines(source@), 0nat, Seq::<char>::empty())]);
        r
    }

    /// Continue the expansion until it needs a file's contents, is complete,
    /// or an include would nest deeper than [`MAX_INCLUDE_DEPTH`] (an
    /// [`PreprocessError::IncludeCycle`] naming that include's path).
    pub fn step(&mut self) -> (s: IncludeStep)
        ensures
            final(self).frames_view() == advance_spec(old(self).frames_view()).0,
            match advance_spec(old(self).frames_view()).1 {
                StepView::Read(path, depth) => s matches IncludeStep::Read { path: p, depth: d }
                    && p@ == path && d as nat == depth,
                StepView::Done(out) => s matches IncludeStep::Done(o) && o@ == out,
                StepView::Cycle(path) => s matches IncludeStep::Failed(PreprocessError::IncludeCycle { path: p })
                    && p@ == path,
            },
    {
        loop
            invariant
                advance_spec(self.frames_view()) == advance_spec(old(self).frames_view()),
            decreases remaining(self.frames_view()),
        {
            let ghost fs = self.frames_view();
            let n = self.frames.len();
            if n == 0 {
                return IncludeStep::Done(String::new());
            }
            let mut top = self.frames.pop().unwrap();
            proof {
                assert(fs.drop_last() =~= self.frames_view());
                assert(fs.last() == top.view());
            }
            if top.next >= top.lines.len() {
                if n == 1 {
                    return IncludeStep::Done(string_from_chars(top.out.as_slice()));
                }
                let mut parent = self.frames.pop().unwrap();
                let ghost pv = parent.view();
                append_range(&mut parent.out, &top.out, 0, top.out.len());
                assert(top.out@.subrange(0, top.out@.len() as int) =~= top.out@);
                let ends_nl = parent.out.len() > 0 && parent.out[parent.out.len() - 1] == '\n';
                if !ends_nl {
                    parent.out.push('\n');
                }
                self.frames.push(parent);
                proof {
                    assert(parent.view() == (pv.0, pv.1, ensure_newline(pv.2 + top.out@)));
                    assert(self.frames_view() =~= fs.drop_last().update(fs.len() - 2,
                        (pv.0, pv.1, ensure_newline(pv.2 + top.out@))));
                    lemma_remaining_update(fs.drop_last(), fs.len() - 2, (pv.0, pv.1, ensure_newline(pv.2 + top.out@)));
                }
            } else {
                let ghost tv = top.view();
                let i = top.next;
                let len = top.lines[i].len();
                let inc = include_at(&top.lines[i], 0, len);
                assert(top.lines@[i as int]@.subrange(0, len as int) =~= top.lines@[i as int]@);
                assert(tv.0[i as int] == top.lines@[i as int]@);
                match inc {
                    None => {
                        let line_len = top.lines[i].len();
                        let mut out = top.out;
                        append_range(&mut out, &top.lines[i], 0, line_len);
                        out.push('\n');
                        let frame = IncludeFrame { lines: top.lines, next: i + 1, out };
                        proof {
                            assert(frame.view() == (tv.0, tv.1 + 1, tv.2 + tv.0[i as int] + seq!['\n']));
                        }
                        self.frames.push(frame);
                        proof {
                            assert(self.frames_view() =~= fs.update(fs.len() - 1, frame.view()));
                            assert(fs.update(fs.len() - 1, frame.view()).drop_last() =~= fs.drop_last());
                        }
                    },
                    Some((a, b)) => {
                        let path = sub_string(&top.lines[i], a, b);
                        let depth = n - 1;
                        if depth >= MAX_INCLUDE_DEPTH {
                            self.frames.push(top);
                            proof { assert(self.frames_view() =~= fs); }
                            return IncludeStep::Failed(PreprocessError::IncludeCycle { path });
                        }
                        top.next = i + 1;
                        self.frames.push(top);
                        proof {
                            assert(self.frames_view() =~= fs.update(fs.len() - 1, (tv.0, tv.1 + 1, tv.2)));
                        }
                        return IncludeStep::Read { path, depth: n };
                    },
                }
            }
        }
    }

    /// Hand over the contents of the file the last step asked for; it is
    /// expanded next, at one level deeper.
    pub fn supply(&mut self, contents: &str)
        ensures
            final(self).frames_view() == old(self).frames_view().push((lines(contents@), 0nat, Seq::<char>::empty())),
    {
        let chars = chars_of(contents);
        let ls = lines_of(&chars);
        let ghost before = self.frames_view();
        self.frames.push(IncludeFrame { lines: ls, next: 0, out: Vec::new() });
        assert(self.frames_view() =~= before.push((lines(contents@), 0nat, Seq::<char>::empty())));
    }
}

proof fn lemma_plain_frame_runs_to_the_end(ls: Seq<Seq<char>>, k: nat)
    requires
        k <= ls.len(),
        forall|i: int| 0 <= i < ls.len() ==> (#[trigger] include_spec(ls[i])) is None,
    ensures
        advance_spec(seq![(ls, k, joined_lines(ls.take(k as int)))]).1 == StepView::Done(joined_lines(ls)),
    decreases ls.len() - k,
{
    let fs = seq![(ls, k, joined_lines(ls.take(k as int)))];
    if k >= ls.len() {
        assert(ls.take(k as int) =~= ls);
    } else {
        let line = ls[k as int];
        assert(include_spec(line) is None);
        let fs2 = fs.update(0, (ls, k + 1, joined_lines(ls.take(k as int)) + line + seq!['\n']));
        assert(ls.take((k + 1) as int).drop_last() =~= ls.take(k as int));
        assert(fs2 =~= seq![(ls, (k + 1) as nat, joined_lines(ls.take((k + 1) as int)))]);
        lemma_plain_frame_runs_to_the_end(ls, k + 1);
    }
}

/// A source with no `#include` line expands, in one step, to its own lines,
/// each followed by `'\n'`.
pub proof fn lemma_no_includes_expand_to_own_lines(src: Seq<char>)
    requires
        forall|i: int| 0 <= i < lines(src).len() ==> (#[trigger] include_spec(lines(src)[i])) is None,
    ensures
        advance_spec(seq![(lines(src), 0nat, Seq::<char>::empty())]).1 == StepView::Done(joined_lines(lines(src))),
{
    assert(lines(src).take(0) =~= Seq::<Seq<char>>::empty());
    lemma_plain_frame_runs_to_the_end(lines(src), 0);
}

} // verus!
