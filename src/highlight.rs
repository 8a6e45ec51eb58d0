//! The highlight projection of a tokenized line: styled intervals, cut at the cursor.

use vstd::prelude::*;
use colored::Colorize;
use crate::format::{Format, Token, name_span, name_start, body_start, tokens_of, tokens_from,
    token_at, blank_end, token_in_bounds, lemma_blank_end, lemma_token_at, lemma_token_end};
use crate::text::string_of;

verus! {

/// How an interval of the line is shown.
#[derive(Clone, Copy, Debug, PartialEq, Eq)]
pub enum Style {
    Plain,
    Name,
    Arg,
    Key,
    Value,
}

/// A styled interval `[start, end)` of the line.
#[derive(Clone, Copy, Debug, PartialEq, Eq)]
pub struct Segment {
    pub style: Style,
    pub start: usize,
    pub end: usize,
}

pub open spec fn seg_view(v: Seq<Segment>) -> Seq<(Style, int, int)> {
    v.map_values(|x: Segment| (x.style, x.start as int, x.end as int))
}

/// The styled intervals of one token: an argument, or an option's key (with its dashes)
/// and its value when it has one.
pub open spec fn token_pieces(t: Token) -> Seq<(Style, int, int)> {
    match t {
        Token::Arg(sp) => seq![(Style::Arg, sp.start as int, sp.end as int)],
        Token::Opt(o) => if o.value.start < o.value.end {
            seq![(Style::Key, o.start as int, o.key.end as int), (Style::Value, o.value.start as int, o.value.end as int)]
        } else {
            seq![(Style::Key, o.start as int, o.key.end as int)]
        },
    }
}

pub open spec fn tokens_pieces(toks: Seq<Token>) -> Seq<(Style, int, int)>
    decreases toks.len(),
{
    if toks.len() == 0 {
        seq![]
    } else {
        tokens_pieces(toks.drop_last()) + token_pieces(toks.last())
    }
}

/// The styled intervals of the line `s`, in the order of the text.
pub open spec fn pieces_of(s: Seq<char>) -> Seq<(Style, int, int)> {
    let head = match name_span(s) {
        Some(sp) => seq![(Style::Name, sp.start as int, sp.end as int)],
        None => seq![],
    };
    head + tokens_pieces(tokens_of(s))
}

/// The segments that show `[c, m)` given the styled intervals `p`: plain text between
/// them, each one cut at `m`, and nothing once one reaches `m`.
pub open spec fn segments(p: Seq<(Style, int, int)>, c: int, m: int) -> Seq<(Style, int, int)>
    decreases p.len(),
{
    let tail = if c < m { seq![(Style::Plain, c, m)] } else { seq![] };
    if p.len() == 0 || p[0].1 >= m {
        tail
    } else {
        let (k, a, b) = p[0];
        let gap = if c < a { seq![(Style::Plain, c, a)] } else { seq![] };
        let e = if b < m { b } else { m };
        if b >= m {
            gap + seq![(k, a, e)]
        } else {
            gap + seq![(k, a, e)] + segments(p.drop_first(), e, m)
        }
    }
}

/// Where the projection of a line of length `n` stops for the bound `max`.
pub open spec fn cut(n: int, max: Option<usize>) -> int {
    match max {
        Some(x) => if (x as int) < n { x as int } else { n },
        None => n,
    }
}

/// The reset code that ends a styled run.
pub open spec fn reset_code() -> Seq<char> {
    seq!['\x1B', '[', '0', 'm']
}

/// The style code that colored writes before a run of each style: bright green for the
/// name, bright cyan for an argument, bold bright yellow for a key, bright red for a value.
pub open spec fn style_code(style: Style) -> Seq<char> {
    match style {
        Style::Plain => seq![],
        Style::Name => seq!['\x1B', '[', '9', '2', 'm'],
        Style::Arg => seq!['\x1B', '[', '9', '6', 'm'],
        Style::Key => seq!['\x1B', '[', '1', ';', '9', '3', 'm'],
        Style::Value => seq!['\x1B', '[', '9', '1', 'm'],
    }
}

/// `text` holds the reset code somewhere.
pub open spec fn has_reset(text: Seq<char>) -> bool {
    exists|i: int| 0 <= i && i + 4 <= text.len() && #[trigger] text.subrange(i, i + 4) == reset_code()
}

/// `out` shows `text` in `style`: a plain text as it is; a styled one as it is (colouring
/// off) or between the style's code and the reset code. A styled text that itself holds
/// the reset code is rewritten by colored, and what it becomes is left open.
pub open spec fn shown_as(style: Style, text: Seq<char>, out: Seq<char>) -> bool {
    match style {
        Style::Plain => out == text,
        _ => !has_reset(text) ==> (out == text || out == style_code(style) + text + reset_code()),
    }
}

/// `out` is the concatenation of `ps`, and `ps[k]` shows the text of segment `k` of `s`.
pub open spec fn shown_by(out: Seq<char>, s: Seq<char>, segs: Seq<(Style, int, int)>, ps: Seq<Seq<char>>) -> bool {
    &&& ps.len() == segs.len()
    &&& out == concat_all(ps)
    &&& forall|k: int| 0 <= k < ps.len() ==> shown_as(segs[k].0, s.subrange(segs[k].1, segs[k].2), #[trigger] ps[k])
}

pub open spec fn concat_all(ps: Seq<Seq<char>>) -> Seq<char>
    decreases ps.len(),
{
    if ps.len() == 0 {
        seq![]
    } else {
        concat_all(ps.drop_last()) + ps.last()
    }
}

/// Relies on colored's `bright_green` (code 92) and the `Display` of `ColoredString`: the text
/// unchanged when colouring is off, else `ESC[<codes>m`, the text, and `ESC[0m`; only a
/// text that holds `ESC[0m` is changed inside (`escape_inner_reset_sequences`).
#[verifier::external_body]
fn paint_name(text: &str) -> (r: String)
    ensures
        shown_as(Style::Name, text@, r@),
{
    text.bright_green().to_string()
}

/// Relies on colored's `bright_cyan` (code 96) and the `Display` of `ColoredString`: the text
/// unchanged when colouring is off, else `ESC[<codes>m`, the text, and `ESC[0m`; only a
/// text that holds `ESC[0m` is changed inside (`escape_inner_reset_sequences`).
#[verifier::external_body]
fn paint_arg(text: &str) -> (r: String)
    ensures
        shown_as(Style::Arg, text@, r@),
{
    text.bright_cyan().to_string()
}

/// Relies on colored's `bold` and `bright_yellow` (codes 1 and 93) and the `Display` of `ColoredString`: the text
/// unchanged when colouring is off, else `ESC[<codes>m`, the text, and `ESC[0m`; only a
/// text that holds `ESC[0m` is changed inside (`escape_inner_reset_sequences`).
#[verifier::external_body]
fn paint_key(text: &str) -> (r: String)
    ensures
        shown_as(Style::Key, text@, r@),
{
    text.bold().bright_yellow().to_string()
}

/// Relies on colored's `bright_red` (code 91) and the `Display` of `ColoredString`: the text
/// unchanged when colouring is off, else `ESC[<codes>m`, the text, and `ESC[0m`; only a
/// text that holds `ESC[0m` is changed inside (`escape_inner_reset_sequences`).
#[verifier::external_body]
fn paint_value(text: &str) -> (r: String)
    ensures
        shown_as(Style::Value, text@, r@),
{
    text.bright_red().to_string()
}

fn copy_range(s: &Vec<char>, a: usize, b: usize) -> (r: Vec<char>)
    requires
        a <= b <= s@.len(),
    ensures
        r@ == s@.subrange(a as int, b as int),
{
    let mut out: Vec<char> = Vec::new();
    let mut k = a;
    while k < b
        invariant
            a <= k <= b,
            b <= s@.len(),
            out@ == s@.subrange(a as int, k as int),
        decreases b - k,
    {
        out.push(s[k]);
        k = k + 1;
        assert(out@ =~= s@.subrange(a as int, k as int));
    }
    out
}

/// The segment list is in bounds: each one within `[0, m)`.
pub open spec fn segs_in(v: Seq<(Style, int, int)>, m: int) -> bool {
    forall|k: int| 0 <= k < v.len() ==> 0 <= (#[trigger] v[k]).1 <= v[k].2 <= m
}

impl Format {
    fn pieces(&self) -> (r: Vec<Segment>)
        requires
            self.wf(),
        ensures
            seg_view(r@) == pieces_of(self.text()),
            segs_in(seg_view(r@), self.text().len() as int),
    {
        proof { self.lemma_bounds(); }
        let n = self.chars().len();
        let toks = self.tokens();
        let mut out: Vec<Segment> = Vec::new();
        match self.name() {
            Some(sp) => out.push(Segment { style: Style::Name, start: sp.start, end: sp.end }),
            None => {},
        }
        let ghost head = seg_view(out@);
        assert(head == pieces_of(self.text()).subrange(0, head.len() as int)) by {
            assert(seg_view(out@) =~= match name_span(self.text()) {
                Some(sp) => seq![(Style::Name, sp.start as int, sp.end as int)],
                None => seq![],
            });
        }
        let mut i: usize = 0;
        assert(seg_view(out@) =~= head + tokens_pieces(toks@.subrange(0, 0)));
        while i < toks.len()
            invariant
                i <= toks@.len(),
                toks@ == self.tokens_spec(),
                n == self.text().len(),
                forall|k: int| 0 <= k < toks@.len() ==> token_in_bounds(#[trigger] toks@[k], n as int),
                seg_view(out@) == head + tokens_pieces(toks@.subrange(0, i as int)),
                segs_in(seg_view(out@), n as int),
            decreases toks.len() - i,
        {
            let ghost prev = seg_view(out@);
            assert(toks@.subrange(0, i + 1).drop_last() =~= toks@.subrange(0, i as int));
            assert(toks@.subrange(0, i + 1).last() == toks@[i as int]);
            assert(token_in_bounds(toks@[i as int], n as int));
            match toks[i] {
                Token::Arg(sp) => {
                    out.push(Segment { style: Style::Arg, start: sp.start, end: sp.end });
                },
                Token::Opt(o) => {
                    out.push(Segment { style: Style::Key, start: o.start, end: o.key.end });
                    if o.value.start < o.value.end {
                        out.push(Segment { style: Style::Value, start: o.value.start, end: o.value.end });
                    }
                },
            }
            assert(seg_view(out@) =~= prev + token_pieces(toks@[i as int]));
            i = i + 1;
        }
        assert(toks@.subrange(0, i as int) =~= toks@);
        out
    }

    /// The segments that show the line up to `max` (the whole line without one).
    pub fn highlight(&self, max: Option<usize>) -> (r: Vec<Segment>)
        requires
            self.wf(),
        ensures
            seg_view(r@) == segments(pieces_of(self.text()), 0, cut(self.text().len() as int, max)),
            segs_in(seg_view(r@), cut(self.text().len() as int, max)),
            joined(self.text(), seg_view(r@)) == self.text().subrange(0, cut(self.text().len() as int, max)),
    {
        proof {
            lemma_pieces_ordered(self);
            lemma_segments_join(self.text(), pieces_of(self.text()), 0, cut(self.text().len() as int, max));
        }
        let n = self.chars().len();
        let m: usize = match max {
            Some(x) => if x < n { x } else { n },
            None => n,
        };
        let p = self.pieces();
        let ghost pv = seg_view(p@);
        let mut out: Vec<Segment> = Vec::new();
        let mut c: usize = 0;
        let mut j: usize = 0;
        assert(pv.subrange(0, pv.len() as int) =~= pv);
        loop
            invariant_except_break
                seg_view(out@) + segments(pv.subrange(j as int, pv.len() as int), c as int, m as int)
                    == segments(pv, 0, m as int),
            invariant
                j <= p@.len(),
                c <= m,
                m <= n,
                pv == seg_view(p@),
                segs_in(pv, n as int),
                segs_in(seg_view(out@), m as int),
            ensures
                seg_view(out@) == segments(pv, 0, m as int),
                segs_in(seg_view(out@), m as int),
            decreases p@.len() - j,
        {
            let ghost rest = pv.subrange(j as int, pv.len() as int);
            let ghost prev = seg_view(out@);
            if j == p.len() || p[j].start >= m {
                if c < m {
                    out.push(Segment { style: Style::Plain, start: c, end: m });
                }
                assert(seg_view(out@) =~= prev + segments(rest, c as int, m as int));
                break;
            }
            let sg = p[j];
            assert(rest[0] == pv[j as int]);
            assert(rest.drop_first() =~= pv.subrange(j + 1, pv.len() as int));
            assert(0 <= pv[j as int].1 <= pv[j as int].2 <= n);
            if c < sg.start {
                out.push(Segment { style: Style::Plain, start: c, end: sg.start });
            }
            let e = if sg.end < m { sg.end } else { m };
            let ghost mid = seg_view(out@);
            out.push(Segment { style: sg.style, start: sg.start, end: e });
            assert(seg_view(out@) =~= mid.push((sg.style, sg.start as int, e as int)));
            assert(segs_in(seg_view(out@), m as int)) by {
                assert(segs_in(mid, m as int)) by {
                    if c < sg.start {
                        assert(mid =~= prev.push((Style::Plain, c as int, sg.start as int)));
                    } else {
                        assert(mid == prev);
                    }
                }
            }
            if sg.end >= m {
                assert(seg_view(out@) =~= prev + segments(rest, c as int, m as int));
                break;
            }
            assert(seg_view(out@) + segments(pv.subrange(j + 1, pv.len() as int), e as int, m as int)
                =~= prev + segments(rest, c as int, m as int));
            c = e;
            j = j + 1;
        }
        out
    }

    /// The line as shown up to `max` (the whole line without one): each segment's text,
    /// styled by its kind; the segments' texts make up the line up to the cut.
    pub fn transform(&self, max: Option<usize>) -> (r: String)
        requires
            self.wf(),
        ensures
            exists|ps: Seq<Seq<char>>| #[trigger] shown_by(r@, self.text(),
                segments(pieces_of(self.text()), 0, cut(self.text().len() as int, max)), ps),
            joined(self.text(), segments(pieces_of(self.text()), 0, cut(self.text().len() as int, max)))
                == self.text().subrange(0, cut(self.text().len() as int, max)),
    {
        let segs = self.highlight(max);
        let raw = self.chars();
        let ghost sv = seg_view(segs@);
        let ghost mut ps: Seq<Seq<char>> = seq![];
        let mut out: Vec<char> = Vec::new();
        let mut i: usize = 0;
        while i < segs.len()
            invariant
                i <= segs@.len(),
                sv == seg_view(segs@),
                raw@ == self.text(),
                segs_in(sv, self.text().len() as int),
                ps.len() == i,
                out@ == concat_all(ps),
                forall|k: int| 0 <= k < ps.len() ==> shown_as(sv[k].0, self.text().subrange(sv[k].1, sv[k].2), #[trigger] ps[k]),
            decreases segs.len() - i,
        {
            let sg = segs[i];
            assert(sv[i as int] == (sg.style, sg.start as int, sg.end as int));
            let text = string_of(copy_range(raw, sg.start, sg.end).as_slice());
            let shown_text = match sg.style {
                Style::Plain => text,
                Style::Name => paint_name(text.as_str()),
                Style::Arg => paint_arg(text.as_str()),
                Style::Key => paint_key(text.as_str()),
                Style::Value => paint_value(text.as_str()),
            };
            let mut piece = crate::text::chars_of(shown_text.as_str());
            let ghost old_ps = ps;
            proof {
                ps = ps.push(piece@);
                assert(ps.drop_last() =~= old_ps);
                assert forall|k: int| 0 <= k < ps.len() implies shown_as(sv[k].0, self.text().subrange(sv[k].1, sv[k].2), #[trigger] ps[k]) by {
                    if k < i {
                        assert(ps[k] == old_ps[k]);
                    }
                }
            }
            out.append(&mut piece);
            i = i + 1;
        }
        let r = string_of(out.as_slice());
        assert(shown_by(r@, self.text(), sv, ps));
        r
    }
}

/// Where a token starts in the line.
pub open spec fn tok_start(t: Token) -> int {
    match t {
        Token::Arg(sp) => sp.start as int,
        Token::Opt(o) => o.start as int,
    }
}

/// Where a token ends in the line.
pub open spec fn tok_end(t: Token) -> int {
    match t {
        Token::Arg(sp) => sp.end as int,
        Token::Opt(o) => o.value.end as int,
    }
}

/// The tokens start at or after `c`, each after the end of the one before.
pub open spec fn chained(ts: Seq<Token>, c: int) -> bool {
    forall|k: int| 0 <= k < ts.len() ==> {
        &&& (k == 0 ==> c <= tok_start(#[trigger] ts[k]))
        &&& (k > 0 ==> tok_end(ts[k - 1]) <= tok_start(ts[k]))
    }
}

/// The intervals are well formed, start at or after `c`, and do not overlap, in order.
pub open spec fn ordered_from(v: Seq<(Style, int, int)>, c: int) -> bool {
    forall|k: int| 0 <= k < v.len() ==> {
        &&& (#[trigger] v[k]).1 <= v[k].2
        &&& (k == 0 ==> c <= v[k].1)
        &&& (k > 0 ==> v[k - 1].2 <= v[k].1)
    }
}

/// Where the last interval ends, or `c` when there is none.
pub open spec fn end_of(v: Seq<(Style, int, int)>, c: int) -> int {
    if v.len() == 0 { c } else { v.last().2 }
}

/// The texts of the segments of `s`, one after the other.
pub open spec fn joined(s: Seq<char>, v: Seq<(Style, int, int)>) -> Seq<char>
    decreases v.len(),
{
    if v.len() == 0 {
        seq![]
    } else {
        s.subrange(v[0].1, v[0].2) + joined(s, v.drop_first())
    }
}

/// The tokens of a scan follow one another without overlap.
pub proof fn lemma_tokens_chained(s: Seq<char>, p: int)
    requires
        0 <= p <= s.len() <= usize::MAX,
    ensures
        chained(tokens_from(s, p), p),
    decreases s.len() - p,
{
    let q = blank_end(s, p);
    lemma_blank_end(s, p);
    if q < s.len() {
        let (t, e) = token_at(s, q);
        lemma_token_at(s, q);
        if e > p && e <= s.len() {
            lemma_tokens_chained(s, e);
            lemma_token_end(s, q);
            let rest = tokens_from(s, e);
            let ts = tokens_from(s, p);
            assert(ts == seq![t] + rest);
            assert(tok_start(t) == q);
            assert(tok_end(t) == e);
            assert forall|k: int| 0 <= k < ts.len() implies {
                &&& (k == 0 ==> p <= tok_start(#[trigger] ts[k]))
                &&& (k > 0 ==> tok_end(ts[k - 1]) <= tok_start(ts[k]))
            } by {
                if k > 0 {
                    assert(ts[k] == rest[k - 1]);
                    if k > 1 {
                        assert(ts[k - 1] == rest[k - 2]);
                    }
                }
            }
        }
    }
}

proof fn lemma_ordered_concat(a: Seq<(Style, int, int)>, b: Seq<(Style, int, int)>, c: int, d: int)
    requires
        ordered_from(a, c),
        ordered_from(b, d),
        end_of(a, c) <= d,
    ensures
        ordered_from(a + b, c),
        end_of(a + b, c) == if b.len() == 0 { end_of(a, c) } else { end_of(b, d) },
{
    let v = a + b;
    assert forall|k: int| 0 <= k < v.len() implies {
        &&& (#[trigger] v[k]).1 <= v[k].2
        &&& (k == 0 ==> c <= v[k].1)
        &&& (k > 0 ==> v[k - 1].2 <= v[k].1)
    } by {
        if k < a.len() {
            assert(v[k] == a[k]);
            if k > 0 {
                assert(v[k - 1] == a[k - 1]);
            }
        } else {
            assert(v[k] == b[k - a.len()]);
            if k > a.len() {
                assert(v[k - 1] == b[k - 1 - a.len()]);
            } else if k > 0 {
                assert(v[k - 1] == a[k - 1]);
            }
        }
    }
    if b.len() == 0 {
        assert(v =~= a);
    } else {
        assert(v.last() == b.last());
    }
}

proof fn lemma_token_pieces_ordered(t: Token, n: int)
    requires
        token_in_bounds(t, n),
    ensures
        ordered_from(token_pieces(t), tok_start(t)),
        token_pieces(t).len() > 0,
        end_of(token_pieces(t), tok_start(t)) <= tok_end(t),
{
    let b = token_pieces(t);
    assert forall|k: int| 0 <= k < b.len() implies {
        &&& (#[trigger] b[k]).1 <= b[k].2
        &&& (k == 0 ==> tok_start(t) <= b[k].1)
        &&& (k > 0 ==> b[k - 1].2 <= b[k].1)
    } by {}
}

#[verifier::rlimit(50)]
proof fn lemma_tokens_pieces_ordered(ts: Seq<Token>, c: int, n: int)
    requires
        chained(ts, c),
        forall|k: int| 0 <= k < ts.len() ==> token_in_bounds(#[trigger] ts[k], n),
    ensures
        ordered_from(tokens_pieces(ts), c),
        end_of(tokens_pieces(ts), c) <= if ts.len() == 0 { c } else { tok_end(ts.last()) },
    decreases ts.len(),
{
    if ts.len() > 0 {
        let init = ts.drop_last();
        let t = ts.last();
        assert(chained(init, c)) by {
            assert forall|k: int| 0 <= k < init.len() implies {
                &&& (k == 0 ==> c <= tok_start(#[trigger] init[k]))
                &&& (k > 0 ==> tok_end(init[k - 1]) <= tok_start(init[k]))
            } by {
                assert(init[k] == ts[k]);
                if k > 0 {
                    assert(init[k - 1] == ts[k - 1]);
                }
            }
        }
        lemma_tokens_pieces_ordered(init, c, n);
        let a = tokens_pieces(init);
        let b = token_pieces(t);
        assert(token_in_bounds(ts[ts.len() - 1], n));
        assert(chained(ts, c));
        assert(end_of(a, c) <= tok_start(t)) by {
            let k = ts.len() - 1;
            assert(k == 0 ==> c <= tok_start(ts[k]));
            assert(k > 0 ==> tok_end(ts[k - 1]) <= tok_start(ts[k]));
            if init.len() > 0 {
                assert(init.last() == ts[k - 1]);
            }
        }
        lemma_token_pieces_ordered(t, n);
        lemma_ordered_concat(a, b, c, tok_start(t));
    }
}

/// The styled intervals of a well-formed line are in order and do not overlap.
pub proof fn lemma_pieces_ordered(f: &Format)
    requires
        f.wf(),
    ensures
        ordered_from(pieces_of(f.text()), 0),
{
    let s = f.text();
    f.lemma_bounds();
    let bs = body_start(s);
    if name_span(s) is Some {
        lemma_token_end(s, name_start(s));
    }
    lemma_tokens_chained(s, bs);
    lemma_tokens_pieces_ordered(tokens_of(s), bs, s.len() as int);
    let head = match name_span(s) {
        Some(sp) => seq![(Style::Name, sp.start as int, sp.end as int)],
        None => Seq::<(Style, int, int)>::empty(),
    };
    assert(ordered_from(head, 0));
    assert(end_of(head, 0) <= bs);
    lemma_ordered_concat(head, tokens_pieces(tokens_of(s)), 0, bs);
}

/// The segments for ordered intervals show exactly `[c, m)` of the line.
pub proof fn lemma_segments_join(s: Seq<char>, p: Seq<(Style, int, int)>, c: int, m: int)
    requires
        ordered_from(p, c),
        0 <= c <= m <= s.len(),
    ensures
        joined(s, segments(p, c, m)) == s.subrange(c, m),
    decreases p.len(),
{
    let tail = if c < m { seq![(Style::Plain, c, m)] } else { Seq::<(Style, int, int)>::empty() };
    if p.len() == 0 || p[0].1 >= m {
        if c < m {
            lemma_joined_one(s, (Style::Plain, c, m));
        } else {
            assert(s.subrange(c, m) =~= Seq::<char>::empty());
        }
    } else {
        let (k, a, b) = p[0];
        let e = if b < m { b } else { m };
        let gap = if c < a { seq![(Style::Plain, c, a)] } else { Seq::<(Style, int, int)>::empty() };
        let mid = gap + seq![(k, a, e)];
        assert(joined(s, mid) =~= s.subrange(c, e)) by {
            lemma_joined_one(s, (k, a, e));
            lemma_joined_concat(s, gap, seq![(k, a, e)]);
            if c < a {
                lemma_joined_one(s, (Style::Plain, c, a));
                assert(s.subrange(c, a) + s.subrange(a, e) =~= s.subrange(c, e));
            } else {
                assert(joined(s, gap) == Seq::<char>::empty());
            }
        }
        if b >= m {
            assert(segments(p, c, m) == mid);
        } else {
            let r = p.drop_first();
            assert(ordered_from(r, b)) by {
                assert forall|j: int| 0 <= j < r.len() implies {
                    &&& (#[trigger] r[j]).1 <= r[j].2
                    &&& (j == 0 ==> b <= r[j].1)
                    &&& (j > 0 ==> r[j - 1].2 <= r[j].1)
                } by {
                    assert(r[j] == p[j + 1]);
                    if j > 0 {
                        assert(r[j - 1] == p[j]);
                    }
                }
            }
            lemma_segments_join(s, r, b, m);
            assert(segments(p, c, m) == mid + segments(r, b, m));
            lemma_joined_concat(s, mid, segments(r, b, m));
            assert(s.subrange(c, b) + s.subrange(b, m) =~= s.subrange(c, m));
        }
    }
}

proof fn lemma_joined_one(s: Seq<char>, x: (Style, int, int))
    ensures
        joined(s, seq![x]) == s.subrange(x.1, x.2),
{
    assert(seq![x].drop_first() =~= Seq::<(Style, int, int)>::empty());
    assert(joined(s, Seq::<(Style, int, int)>::empty()) == Seq::<char>::empty());
    assert(joined(s, seq![x]) =~= s.subrange(x.1, x.2));
}

proof fn lemma_joined_concat(s: Seq<char>, a: Seq<(Style, int, int)>, b: Seq<(Style, int, int)>)
    ensures
        joined(s, a + b) == joined(s, a) + joined(s, b),
    decreases a.len(),
{
    if a.len() == 0 {
        assert(a + b =~= b);
        assert(joined(s, a) + joined(s, b) =~= joined(s, b));
    } else {
        lemma_joined_concat(s, a.drop_first(), b);
        assert((a + b).drop_first() =~= a.drop_first() + b);
        assert(joined(s, a + b) =~= joined(s, a) + joined(s, b));
    }
}

} // verus!
