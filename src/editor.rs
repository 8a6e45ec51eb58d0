//! The line editor: buffer, cursor, history recall and completion, driven by edit signals.

use vstd::prelude::*;
use crate::command::{Command, same_chars};
use crate::format::strings_view;
use crate::text::{chars_of, string_of, is_prefix, lex_lt, less_than, starts_with,
    lemma_lex_total, lemma_lex_transitive};
use crate::signal::EditSignal;

verus! {

/// What the caller does after a signal has been applied.
pub enum Outcome {
    /// Keep reading signals.
    Continue,
    /// A line was submitted: this is its command.
    Submitted(Command),
    /// The line was dropped: show the marker and hand on this empty command.
    Interrupted(Command),
    /// Stop accepting input.
    Terminate,
}

pub open spec fn seqs_view(v: Seq<Vec<char>>) -> Seq<Seq<char>> {
    v.map_values(|x: Vec<char>| x@)
}

/// Pairwise strictly ascending.
pub open spec fn strictly_sorted(v: Seq<Seq<char>>) -> bool {
    forall|i: int, j: int| 0 <= i < j < v.len() ==> lex_lt(#[trigger] v[i], #[trigger] v[j])
}

/// `c` lists, ascending and once each, the names of `names` that start with `p`.
pub open spec fn is_completion_of(c: Seq<Seq<char>>, names: Seq<Seq<char>>, p: Seq<char>) -> bool {
    &&& strictly_sorted(c)
    &&& forall|x: Seq<char>| c.contains(x) <==> (names.contains(x) && is_prefix(p, x))
}

/// No entry is empty and no entry repeats the one before it.
pub open spec fn history_ok(h: Seq<Seq<char>>) -> bool {
    &&& forall|i: int| 0 <= i < h.len() ==> (#[trigger] h[i]).len() > 0
    &&& forall|i: int| 0 < i < h.len() ==> h[i] != #[trigger] h[i - 1]
}

/// The history after submitting `line`: appended unless empty or equal to the last entry.
pub open spec fn history_after(h: Seq<Seq<char>>, line: Seq<char>) -> Seq<Seq<char>> {
    if line.len() == 0 || (h.len() > 0 && h.last() == line) { h } else { h.push(line) }
}

/// Submitting the same line twice in a row records it once, an empty line is never
/// recorded, and recording keeps the history free of empty entries and repeats.
pub proof fn lemma_history_dedup(h: Seq<Seq<char>>, line: Seq<char>)
    ensures
        history_after(history_after(h, line), line) == history_after(h, line),
        line.len() == 0 ==> history_after(h, line) == h,
        history_ok(h) ==> history_ok(history_after(h, line)),
{
    let h1 = history_after(h, line);
    if line.len() > 0 && !(h.len() > 0 && h.last() == line) {
        assert(h1.last() == line);
    }
}

/// An active completion session: the candidates and the one to show next.
pub struct Completion {
    candidates: Vec<Vec<char>>,
    index: usize,
}

/// The editor's state across the lines of a session.
pub struct EditorState {
    buffer: Vec<char>,
    cursor: usize,
    history: Vec<Vec<char>>,
    recall: Option<usize>,
    stash: Vec<char>,
    completion: Option<Completion>,
}

impl EditorState {
    pub closed spec fn buf(&self) -> Seq<char> {
        self.buffer@
    }

    pub closed spec fn cur(&self) -> int {
        self.cursor as int
    }

    pub closed spec fn hist(&self) -> Seq<Seq<char>> {
        seqs_view(self.history@)
    }

    /// The history entry being recalled, or `None` while editing the live line.
    pub closed spec fn recalled(&self) -> Option<int> {
        match self.recall {
            Some(i) => Some(i as int),
            None => None,
        }
    }

    /// The live line saved when a recall began.
    pub closed spec fn stashed(&self) -> Seq<char> {
        self.stash@
    }

    /// The candidates and next index of the completion session, if one is active.
    pub closed spec fn session(&self) -> Option<(Seq<Seq<char>>, int)> {
        match self.completion {
            Some(c) => Some((seqs_view(c.candidates@), c.index as int)),
            None => None,
        }
    }

    /// The state's invariant.
    pub open spec fn wf(&self) -> bool {
        &&& 0 <= self.cur() <= self.buf().len()
        &&& history_ok(self.hist())
        &&& (self.recalled() matches Some(i) ==> 0 <= i < self.hist().len())
        &&& (self.session() matches Some((c, i)) ==> 0 <= i < c.len() && strictly_sorted(c))
    }

    /// An empty line, an empty history, no recall and no completion.
    pub fn new() -> (r: EditorState)
        ensures
            r.wf(),
            r.buf().len() == 0,
            r.cur() == 0,
            r.hist().len() == 0,
            r.recalled() is None,
            r.session() is None,
    {
        let r = EditorState {
            buffer: Vec::new(),
            cursor: 0,
            history: Vec::new(),
            recall: None,
            stash: Vec::new(),
            completion: None,
        };
        assert(r.hist() =~= seq![]);
        r
    }

    /// The text of the line being edited.
    pub fn buffer(&self) -> (r: String)
        ensures
            r@ == self.buf(),
    {
        string_of(self.buffer.as_slice())
    }

    /// The cursor's offset in the line.
    pub fn cursor(&self) -> (r: usize)
        ensures
            r == self.cur(),
    {
        self.cursor
    }

    /// The submitted lines, oldest first.
    pub fn history(&self) -> (r: Vec<String>)
        ensures
            strings_view(r@) == self.hist(),
    {
        let mut out: Vec<String> = Vec::new();
        let mut i: usize = 0;
        while i < self.history.len()
            invariant
                i <= self.history@.len(),
                strings_view(out@) == self.hist().subrange(0, i as int),
            decreases self.history.len() - i,
        {
            let ghost prev = out@;
            let s = string_of(self.history[i].as_slice());
            out.push(s);
            assert(out@ == prev.push(s));
            assert(s@ == self.hist()[i as int]);
            assert(strings_view(out@) =~= strings_view(prev).push(s@));
            assert(self.hist().subrange(0, i + 1) =~= self.hist().subrange(0, i as int).push(self.hist()[i as int]));
            i = i + 1;
        }
        assert(self.hist().subrange(0, i as int) =~= self.hist());
        out
    }

    /// Whether a history entry is being recalled.
    pub fn is_recalling(&self) -> (r: bool)
        ensures
            r == self.recalled() is Some,
    {
        self.recall.is_some()
    }

    /// Whether a completion session is active.
    pub fn is_completing(&self) -> (r: bool)
        ensures
            r == self.session() is Some,
    {
        self.completion.is_some()
    }
}

fn copy_chars(v: &Vec<char>) -> (r: Vec<char>)
    ensures
        r@ == v@,
{
    let mut out: Vec<char> = Vec::new();
    let mut i: usize = 0;
    while i < v.len()
        invariant
            i <= v@.len(),
            out@ == v@.subrange(0, i as int),
        decreases v.len() - i,
    {
        out.push(v[i]);
        i = i + 1;
        assert(out@ =~= v@.subrange(0, i as int));
    }
    assert(out@ =~= v@);
    out
}

/// Inserts `x` into the strictly ascending `v`, unless it is there already.
fn insert_sorted(v: &mut Vec<Vec<char>>, x: Vec<char>)
    requires
        strictly_sorted(seqs_view(old(v)@)),
    ensures
        strictly_sorted(seqs_view(final(v)@)),
        forall|y: Seq<char>| seqs_view(final(v)@).contains(y) <==> (seqs_view(old(v)@).contains(y) || y == x@),
{
    let ghost old_v = seqs_view(v@);
    let mut i: usize = 0;
    while i < v.len() && less_than(v[i].as_slice(), x.as_slice())
        invariant
            i <= v@.len(),
            seqs_view(v@) == old_v,
            strictly_sorted(old_v),
            forall|k: int| 0 <= k < i ==> lex_lt(#[trigger] old_v[k], x@),
        decreases v.len() - i,
    {
        i = i + 1;
    }
    if i < v.len() && same_chars(&v[i], &x) {
        assert(old_v.contains(x@)) by {
            assert(old_v[i as int] == x@);
        }
        return;
    }
    proof {
        if i < v@.len() {
            lemma_lex_total(old_v[i as int], x@);
        }
    }
    let ghost xv = x@;
    v.insert(i, x);
    let ghost nv = seqs_view(v@);
    assert(nv =~= old_v.insert(i as int, xv));
    assert forall|a: int, b: int| 0 <= a < b < nv.len() implies lex_lt(#[trigger] nv[a], #[trigger] nv[b]) by {
        if b < i {
        } else if b == i {
        } else if a > i {
            assert(nv[a] == old_v[a - 1] && nv[b] == old_v[b - 1]);
        } else if a == i {
            assert(nv[b] == old_v[b - 1]);
            if b - 1 > i {
                lemma_lex_transitive(xv, old_v[i as int], old_v[b - 1]);
            }
        } else {
            assert(nv[b] == old_v[b - 1]);
            if b - 1 >= i {
                lemma_lex_total(old_v[i as int], xv);
                lemma_lex_transitive(old_v[a], xv, old_v[i as int]);
                if b - 1 > i {
                    lemma_lex_transitive(old_v[a], old_v[i as int], old_v[b - 1]);
                }
            }
        }
    }
    assert forall|y: Seq<char>| nv.contains(y) <==> (old_v.contains(y) || y == xv) by {
        if nv.contains(y) {
            let k = choose|k: int| 0 <= k < nv.len() && nv[k] == y;
            if k < i {
                assert(old_v[k] == y);
            } else if k > i {
                assert(old_v[k - 1] == y);
            }
        }
        if old_v.contains(y) {
            let k = choose|k: int| 0 <= k < old_v.len() && old_v[k] == y;
            if k < i {
                assert(nv[k] == y);
            } else {
                assert(nv[k + 1] == y);
            }
        }
        if y == xv {
            assert(nv[i as int] == y);
        }
    }
}

/// The names of `names` that start with `prefix`, ascending, each once.
pub fn completion_candidates(names: &Vec<String>, prefix: &Vec<char>) -> (r: Vec<Vec<char>>)
    ensures
        is_completion_of(seqs_view(r@), strings_view(names@), prefix@),
{
    let mut out: Vec<Vec<char>> = Vec::new();
    let mut i: usize = 0;
    let ghost nv = strings_view(names@);
    assert(seqs_view(out@) =~= seq![]);
    while i < names.len()
        invariant
            i <= names@.len(),
            nv == strings_view(names@),
            strictly_sorted(seqs_view(out@)),
            forall|x: Seq<char>| #[trigger] seqs_view(out@).contains(x) <==> (nv.subrange(0, i as int).contains(x) && is_prefix(prefix@, x)),
        decreases names.len() - i,
    {
        let name = chars_of(names[i].as_str());
        assert(name@ == nv[i as int]);
        let ghost before = seqs_view(out@);
        let ok = starts_with(name.as_slice(), prefix.as_slice());
        if ok {
            insert_sorted(&mut out, name);
        }
        proof {
            let pre = nv.subrange(0, i as int);
            let post = nv.subrange(0, i + 1);
            assert(post =~= pre.push(nv[i as int]));
            assert forall|x: Seq<char>| post.contains(x) <==> (pre.contains(x) || x == nv[i as int]) by {
                if post.contains(x) {
                    let k = choose|k: int| 0 <= k < post.len() && post[k] == x;
                    if k < i {
                        assert(pre[k] == x);
                    }
                }
                if pre.contains(x) {
                    let k = choose|k: int| 0 <= k < pre.len() && pre[k] == x;
                    assert(post[k] == x);
                }
                if x == nv[i as int] {
                    assert(post[i as int] == x);
                }
            }
            assert forall|x: Seq<char>| seqs_view(out@).contains(x) <==> (post.contains(x) && is_prefix(prefix@, x)) by {
                assert(before.contains(x) <==> (pre.contains(x) && is_prefix(prefix@, x)));
                if !ok {
                    assert(seqs_view(out@) == before);
                } else {
                    assert(seqs_view(out@).contains(x) <==> (before.contains(x) || x == name@));
                }
            }
        }
        i = i + 1;
    }
    assert(nv.subrange(0, i as int) =~= nv);
    assert forall|x: Seq<char>| seqs_view(out@).contains(x) <==> (nv.contains(x) && is_prefix(prefix@, x)) by {
        assert(nv.subrange(0, i as int) == nv);
        assert(seqs_view(out@).contains(x) <==> (nv.subrange(0, i as int).contains(x) && is_prefix(prefix@, x)));
    }
    out
}

/// `b` keeps everything of `a` but the line and the cursor.
pub open spec fn same_context(a: EditorState, b: EditorState) -> bool {
    &&& b.hist() == a.hist()
    &&& b.recalled() == a.recalled()
    &&& b.stashed() == a.stashed()
    &&& b.session() == a.session()
}

/// `b` is `a` with nothing changed.
pub open spec fn unchanged(a: EditorState, b: EditorState) -> bool {
    &&& same_context(a, b)
    &&& b.buf() == a.buf()
    &&& b.cur() == a.cur()
}

/// `b` holds the line `line` with the cursor at its end.
pub open spec fn shows(b: EditorState, line: Seq<char>) -> bool {
    b.buf() == line && b.cur() == line.len()
}

/// `b` starts a fresh line after `a`, with `h` as its history.
pub open spec fn fresh_line(b: EditorState, h: Seq<Seq<char>>) -> bool {
    &&& b.buf().len() == 0
    &&& b.cur() == 0
    &&& b.hist() == h
    &&& b.recalled() is None
    &&& b.session() is None
}

/// How one signal changes the editor from `a` to `b`, and what it returns.
pub open spec fn step(a: EditorState, b: EditorState, signal: EditSignal, names: Seq<Seq<char>>, r: Outcome) -> bool {
    match signal {
        EditSignal::InsertChar(c) => {
            &&& b.buf() == a.buf().insert(a.cur(), c)
            &&& b.cur() == a.cur() + 1
            &&& b.hist() == a.hist()
            &&& b.stashed() == a.stashed()
            &&& b.recalled() is None
            &&& b.session() is None
            &&& r is Continue
        },
        EditSignal::Backspace => {
            &&& r is Continue
            &&& if a.cur() == 0 {
                unchanged(a, b)
            } else {
                &&& b.buf() == a.buf().remove(a.cur() - 1)
                &&& b.cur() == a.cur() - 1
                &&& same_context(a, b)
            }
        },
        EditSignal::Delete => {
            &&& r is Continue
            &&& if a.cur() == a.buf().len() {
                unchanged(a, b)
            } else {
                &&& b.buf() == a.buf().remove(a.cur())
                &&& b.cur() == a.cur()
                &&& same_context(a, b)
            }
        },
        EditSignal::CursorHome => r is Continue && same_context(a, b) && b.buf() == a.buf() && b.cur() == 0,
        EditSignal::CursorEnd => r is Continue && same_context(a, b) && b.buf() == a.buf() && b.cur() == a.buf().len(),
        EditSignal::CursorLeft => {
            &&& r is Continue
            &&& same_context(a, b)
            &&& b.buf() == a.buf()
            &&& b.cur() == if a.cur() == 0 { 0 } else { a.cur() - 1 }
        },
        EditSignal::CursorRight => {
            &&& r is Continue
            &&& same_context(a, b)
            &&& b.buf() == a.buf()
            &&& b.cur() == if a.cur() == a.buf().len() { a.cur() } else { a.cur() + 1 }
        },
        EditSignal::HistoryPrev => {
            &&& r is Continue
            &&& b.hist() == a.hist()
            &&& b.session() == a.session()
            &&& match a.recalled() {
                None => if a.hist().len() == 0 {
                    unchanged(a, b)
                } else {
                    &&& b.stashed() == a.buf()
                    &&& b.recalled() == Some(a.hist().len() - 1)
                    &&& shows(b, a.hist().last())
                },
                Some(i) => if i == 0 {
                    unchanged(a, b)
                } else {
                    &&& b.stashed() == a.stashed()
                    &&& b.recalled() == Some(i - 1)
                    &&& shows(b, a.hist()[i - 1])
                },
            }
        },
        EditSignal::HistoryNext => {
            &&& r is Continue
            &&& b.hist() == a.hist()
            &&& b.session() == a.session()
            &&& b.stashed() == a.stashed()
            &&& match a.recalled() {
                None => unchanged(a, b),
                Some(i) => if i == a.hist().len() - 1 {
                    b.recalled() is None && shows(b, a.stashed())
                } else {
                    b.recalled() == Some(i + 1) && shows(b, a.hist()[i + 1])
                },
            }
        },
        EditSignal::CompleteNext => {
            &&& r is Continue
            &&& b.hist() == a.hist()
            &&& b.recalled() == a.recalled()
            &&& b.stashed() == a.stashed()
            &&& match a.session() {
                Some((c, i)) => {
                    &&& shows(b, c[i])
                    &&& b.session() == Some((c, (i + 1) % (c.len() as int)))
                },
                None => {
                    ||| (forall|x: Seq<char>| !(names.contains(x) && is_prefix(a.buf(), x))) && unchanged(a, b)
                    ||| exists|c: Seq<Seq<char>>| {
                        &&& c.len() > 0
                        &&& is_completion_of(c, names, a.buf())
                        &&& shows(b, c[0])
                        &&& b.session() == Some((c, 1int % (c.len() as int)))
                    }
                },
            }
        },
        EditSignal::Submit => {
            &&& fresh_line(b, history_after(a.hist(), a.buf()))
            &&& r matches Outcome::Submitted(cmd) && cmd.holds(a.buf())
        },
        EditSignal::Interrupt => {
            &&& fresh_line(b, a.hist())
            &&& r matches Outcome::Interrupted(cmd) && cmd.is_empty_command()
        },
        EditSignal::Terminate => r is Terminate && unchanged(a, b),
        EditSignal::FunctionKey(_) => r is Continue && unchanged(a, b),
        EditSignal::Unrecognized => r is Continue && unchanged(a, b),
    }
}

impl EditorState {
    /// Applies one signal; `names` is the executable index used for completion.
    pub fn apply(&mut self, signal: EditSignal, names: &Vec<String>) -> (r: Outcome)
        requires
            old(self).wf(),
        ensures
            final(self).wf(),
            step(*old(self), *final(self), signal, strings_view(names@), r),
    {
        match signal {
            EditSignal::InsertChar(c) => {
                self.recall = None;
                self.completion = None;
                self.buffer.insert(self.cursor, c);
                proof { assert(self.buffer.len() == self.buffer@.len()); }
                self.cursor = self.cursor + 1;
                Outcome::Continue
            },
            EditSignal::Backspace => {
                if self.cursor != 0 {
                    self.buffer.remove(self.cursor - 1);
                    self.cursor = self.cursor - 1;
                }
                Outcome::Continue
            },
            EditSignal::Delete => {
                if self.cursor != self.buffer.len() {
                    self.buffer.remove(self.cursor);
                }
                Outcome::Continue
            },
            EditSignal::CursorHome => {
                self.cursor = 0;
                Outcome::Continue
            },
            EditSignal::CursorEnd => {
                self.cursor = self.buffer.len();
                Outcome::Continue
            },
            EditSignal::CursorLeft => {
                if self.cursor != 0 {
                    self.cursor = self.cursor - 1;
                }
                Outcome::Continue
            },
            EditSignal::CursorRight => {
                if self.cursor != self.buffer.len() {
                    self.cursor = self.cursor + 1;
                }
                Outcome::Continue
            },
            EditSignal::HistoryPrev => {
                self.history_prev();
                Outcome::Continue
            },
            EditSignal::HistoryNext => {
                self.history_next();
                Outcome::Continue
            },
            EditSignal::CompleteNext => {
                self.complete_next(names);
                Outcome::Continue
            },
            EditSignal::Submit => {
                let line = string_of(self.buffer.as_slice());
                let cmd = crate::command::parse_command(line.as_str());
                self.record(&line);
                self.buffer = Vec::new();
                self.cursor = 0;
                self.recall = None;
                self.completion = None;
                Outcome::Submitted(cmd)
            },
            EditSignal::Interrupt => {
                self.buffer = Vec::new();
                self.cursor = 0;
                self.recall = None;
                self.completion = None;
                Outcome::Interrupted(Command::empty())
            },
            EditSignal::Terminate => Outcome::Terminate,
            EditSignal::FunctionKey(_) => Outcome::Continue,
            EditSignal::Unrecognized => Outcome::Continue,
        }
    }

    fn history_prev(&mut self)
        requires
            old(self).wf(),
        ensures
            final(self).wf(),
            step(*old(self), *final(self), EditSignal::HistoryPrev, seq![], Outcome::Continue),
    {
        match self.recall {
            None => {
                if self.history.len() > 0 {
                    let i = self.history.len() - 1;
                    self.stash = copy_chars(&self.buffer);
                    self.buffer = copy_chars(&self.history[i]);
                    self.cursor = self.buffer.len();
                    self.recall = Some(i);
                }
            },
            Some(i) => {
                if i > 0 {
                    self.buffer = copy_chars(&self.history[i - 1]);
                    self.cursor = self.buffer.len();
                    self.recall = Some(i - 1);
                }
            },
        }
    }

    fn history_next(&mut self)
        requires
            old(self).wf(),
        ensures
            final(self).wf(),
            step(*old(self), *final(self), EditSignal::HistoryNext, seq![], Outcome::Continue),
    {
        match self.recall {
            None => {},
            Some(i) => {
                if i == self.history.len() - 1 {
                    self.buffer = copy_chars(&self.stash);
                    self.recall = None;
                } else {
                    self.buffer = copy_chars(&self.history[i + 1]);
                    self.recall = Some(i + 1);
                }
                self.cursor = self.buffer.len();
            },
        }
    }

    fn complete_next(&mut self, names: &Vec<String>)
        requires
            old(self).wf(),
        ensures
            final(self).wf(),
            step(*old(self), *final(self), EditSignal::CompleteNext, strings_view(names@), Outcome::Continue),
    {
        let ghost a = *self;
        let session = self.completion.take();
        let ghost mut fresh: Seq<Seq<char>> = seq![];
        let comp = match session {
            Some(c) => c,
            None => {
                let c = completion_candidates(names, &self.buffer);
                proof { fresh = seqs_view(c@); }
                assert(is_completion_of(fresh, strings_view(names@), a.buf()));
                if c.len() == 0 {
                    proof {
                        assert forall|x: Seq<char>| !(strings_view(names@).contains(x) && is_prefix(a.buf(), x)) by {
                            if strings_view(names@).contains(x) && is_prefix(a.buf(), x) {
                                assert(seqs_view(c@).contains(x));
                            }
                        }
                    }
                    return;
                }
                Completion { candidates: c, index: 0 }
            },
        };
        let i = comp.index;
        self.buffer = copy_chars(&comp.candidates[i]);
        self.cursor = self.buffer.len();
        let n = comp.candidates.len();
        let next = if i >= n - 1 { 0 } else { i + 1 };
        self.completion = Some(Completion { candidates: comp.candidates, index: next });
        proof {
            let cs = seqs_view(self.completion->0.candidates@);
            assert(self.buf() == cs[i as int]);
            let ni = n as int;
            let ii = i as int;
            let nx = next as int;
            assert(ni > 0 && 0 <= ii < ni);
            assert((ii + 1) % ni == nx) by (nonlinear_arith)
                requires
                    ni > 0,
                    0 <= ii < ni,
                    nx == if ii >= ni - 1 { 0 } else { ii + 1 },
            ;
            if a.session() is None {
                assert(exists|c: Seq<Seq<char>>| {
                    &&& c.len() > 0
                    &&& is_completion_of(c, strings_view(names@), a.buf())
                    &&& shows(*self, c[0])
                    &&& self.session() == Some((c, 1int % (c.len() as int)))
                }) by {
                    assert(cs == fresh);
                    assert(i == 0);
                }
            }
        }
    }

    /// Appends `line` to the history unless it is empty or repeats the last entry.
    fn record(&mut self, line: &String)
        requires
            old(self).wf(),
        ensures
            final(self).hist() == history_after(old(self).hist(), line@),
            final(self).buf() == old(self).buf(),
            final(self).cur() == old(self).cur(),
            history_ok(final(self).hist()),
    {
        let cs = chars_of(line.as_str());
        if cs.len() == 0 {
            return;
        }
        let n = self.history.len();
        if n > 0 && same_chars(&self.history[n - 1], &cs) {
            return;
        }
        let ghost h = self.hist();
        self.history.push(cs);
        assert(self.hist() =~= h.push(line@));
    }
}

} // verus!
