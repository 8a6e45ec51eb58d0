//! Rendering a command back to a line, and the law that tokenizing that line gives it back.

use vstd::prelude::*;
use crate::command::Command;
use crate::format::{Token, OptSpan, span, is_blank, is_word_char, is_key_char, is_value_char,
    blank_end, word_end, key_end, value_end, eq_end, quote_end, unescape, token_text,
    is_digit_char, token_at, tokens_from, option_at, token_end, text_of, trim, trail_end, name_of,
    args_of, opts_of, args_in, opts_in, name_span, body_start, strings_view, pairs_view,
    lemma_blank_end, lemma_token_at, blank};
use crate::text::{chars_of, string_of};

verus! {

pub open spec fn all_word(w: Seq<char>) -> bool {
    forall|i: int| 0 <= i < w.len() ==> is_word_char(#[trigger] w[i])
}

pub open spec fn all_key(w: Seq<char>) -> bool {
    forall|i: int| 0 <= i < w.len() ==> is_key_char(#[trigger] w[i])
}

pub open spec fn all_value(w: Seq<char>) -> bool {
    forall|i: int| 0 <= i < w.len() ==> is_value_char(#[trigger] w[i])
}

/// An argument that reads back as itself: not empty, no leading dash, no quote or
/// backslash, and no whitespace but spaces.
pub open spec fn plain_arg(w: Seq<char>) -> bool {
    &&& w.len() > 0
    &&& w[0] != '-'
    &&& forall|i: int| 0 <= i < w.len() ==> {
        &&& #[trigger] w[i] != '"'
        &&& w[i] != '\\'
        &&& (is_blank(w[i]) ==> w[i] == ' ')
    }
}

/// An option that reads back as itself: a key of identifier characters that starts with
/// no digit, and a value with no quote or backslash and no whitespace but spaces.
pub open spec fn plain_opt(kv: (Seq<char>, Seq<char>)) -> bool {
    &&& kv.0.len() > 0
    &&& all_key(kv.0)
    &&& !is_digit_char(kv.0[0])
    &&& forall|i: int| 0 <= i < kv.1.len() ==> {
        &&& #[trigger] kv.1[i] != '"'
        &&& kv.1[i] != '\\'
        &&& (is_blank(kv.1[i]) ==> kv.1[i] == ' ')
    }
}

/// An argument as written in a line: between quotes when it holds a space.
pub open spec fn render_arg(w: Seq<char>) -> Seq<char> {
    if w.contains(' ') { seq!['"'] + w + seq!['"'] } else { w }
}

/// The arguments, each after a blank.
pub open spec fn render_args(a: Seq<Seq<char>>) -> Seq<char>
    decreases a.len(),
{
    if a.len() == 0 {
        seq![]
    } else {
        seq![' '] + render_arg(a[0]) + render_args(a.drop_first())
    }
}

/// An option value as written in a line: bare when it is all value characters, else
/// between quotes.
pub open spec fn render_value(v: Seq<char>) -> Seq<char> {
    if all_value(v) { v } else { seq!['"'] + v + seq!['"'] }
}

/// One option: `-k` or `--k`, then `=v` when the value is not empty.
pub open spec fn render_opt(kv: (Seq<char>, Seq<char>), long: bool) -> Seq<char> {
    let dashes = if long { seq!['-', '-'] } else { seq!['-'] };
    let value = if kv.1.len() == 0 { seq![] } else { seq!['='] + render_value(kv.1) };
    dashes + kv.0 + value
}

/// The options of one form, each after a blank.
pub open spec fn render_opts(o: Seq<(Seq<char>, Seq<char>)>, long: bool) -> Seq<char>
    decreases o.len(),
{
    if o.len() == 0 {
        seq![]
    } else {
        seq![' '] + render_opt(o[0], long) + render_opts(o.drop_first(), long)
    }
}

/// The line of a command: name, arguments, short options, long options.
pub open spec fn render_line(
    name: Seq<char>,
    args: Seq<Seq<char>>,
    short: Seq<(Seq<char>, Seq<char>)>,
    long: Seq<(Seq<char>, Seq<char>)>,
) -> Seq<char> {
    name + render_args(args) + render_opts(short, false) + render_opts(long, true)
}

/// Tokenizing the line of a command gives the command back, when its name is a word,
/// its arguments plain (quoted when they hold a space), its options plain keys and values
/// (a value quoted unless all value characters), and the line fits in memory.
pub proof fn lemma_round_trip(
    name: Seq<char>,
    args: Seq<Seq<char>>,
    short: Seq<(Seq<char>, Seq<char>)>,
    long: Seq<(Seq<char>, Seq<char>)>,
)
    requires
        name.len() > 0,
        all_word(name),
        forall|i: int| 0 <= i < args.len() ==> plain_arg(#[trigger] args[i]),
        forall|i: int| 0 <= i < short.len() ==> plain_opt(#[trigger] short[i]),
        forall|i: int| 0 <= i < long.len() ==> plain_opt(#[trigger] long[i]),
        render_line(name, args, short, long).len() <= usize::MAX,
    ensures
        name_of(render_line(name, args, short, long)) == name,
        args_of(render_line(name, args, short, long)) == args,
        opts_of(render_line(name, args, short, long), false) == short,
        opts_of(render_line(name, args, short, long), true) == long,
{
    let s = render_line(name, args, short, long);
    let ra = render_args(args);
    let rs = render_opts(short, false);
    let rl = render_opts(long, true);
    let args_at = name.len() as int;
    let short_at = args_at + ra.len();
    let long_at = short_at + rs.len();
    assert(s =~= name + (ra + rs + rl));
    assert(s.subrange(0, args_at) =~= name);
    lemma_run_word(s, 0, args_at);
    assert(s[0] == name[0]);
    assert(name_span(s) == Some(span(0, args_at)));
    assert(text_of(s, span(0, args_at)) =~= name);
    assert(body_start(s) == args_at);
    assert(s.subrange(args_at, s.len() as int) =~= ra + (rs + rl));
    lemma_args_read(s, args_at, args, rs + rl);
    assert(s.subrange(short_at, s.len() as int) =~= rs + rl);
    lemma_opts_read(s, short_at, short, false, rl);
    assert(s.subrange(long_at, s.len() as int) =~= rl + seq![]);
    lemma_opts_read(s, long_at, long, true, seq![]);
    assert(tokens_from(s, s.len() as int) =~= seq![]);
    assert(args_in(s, seq![]) =~= seq![]);
    assert(opts_in(s, seq![], false) =~= seq![]);
    assert(opts_in(s, seq![], true) =~= seq![]);
    assert(args + seq![] =~= args);
    assert(short + seq![] =~= short);
    assert(long + seq![] =~= long);
}

/// `[i, j)` is a run of word characters that ends at `j`.
proof fn lemma_run_word(s: Seq<char>, i: int, j: int)
    requires
        0 <= i <= j <= s.len(),
        forall|k: int| i <= k < j ==> is_word_char(#[trigger] s[k]),
        j == s.len() || !is_word_char(s[j]),
    ensures
        word_end(s, i) == j,
    decreases j - i,
{
    if i < j {
        lemma_run_word(s, i + 1, j);
    }
}

/// `[i, j)` is a run of key characters that ends at `j`.
proof fn lemma_run_key(s: Seq<char>, i: int, j: int)
    requires
        0 <= i <= j <= s.len(),
        forall|k: int| i <= k < j ==> is_key_char(#[trigger] s[k]),
        j == s.len() || !is_key_char(s[j]),
    ensures
        key_end(s, i) == j,
    decreases j - i,
{
    if i < j {
        lemma_run_key(s, i + 1, j);
    }
}

/// `[i, j)` is a run of value characters that ends at `j`.
proof fn lemma_run_value(s: Seq<char>, i: int, j: int)
    requires
        0 <= i <= j <= s.len(),
        forall|k: int| i <= k < j ==> is_value_char(#[trigger] s[k]),
        j == s.len() || !is_value_char(s[j]),
    ensures
        value_end(s, i) == j,
    decreases j - i,
{
    if i < j {
        lemma_run_value(s, i + 1, j);
    }
}

/// A text without a leading or trailing blank trims to itself.
proof fn lemma_trim_plain(w: Seq<char>)
    requires
        w.len() > 0,
        !is_blank(w[0]),
        !is_blank(w[w.len() - 1]),
    ensures
        trim(w) == w,
{
    assert(blank_end(w, 0) == 0);
    assert(trail_end(w, w.len() as int) == w.len());
    assert(w.subrange(0, w.len() as int) =~= w);
}

/// A quoted body without quote or backslash ends at its closing quote.
proof fn lemma_run_quote(s: Seq<char>, i: int, j: int)
    requires
        0 <= i <= j < s.len(),
        forall|k: int| i <= k < j ==> #[trigger] s[k] != '"' && s[k] != '\\',
        s[j] == '"',
    ensures
        quote_end(s, i) == j + 1,
    decreases j - i,
{
    if i < j {
        lemma_run_quote(s, i + 1, j);
    }
}

/// The content of `"w"`, for `w` without quote or backslash, is `w`.
proof fn lemma_unescape_plain(x: Seq<char>, w: Seq<char>, i: int)
    requires
        x == seq!['"'] + w + seq!['"'],
        forall|k: int| 0 <= k < w.len() ==> #[trigger] w[k] != '"' && w[k] != '\\',
        1 <= i <= w.len() + 1,
    ensures
        unescape(x, i) == w.subrange(i - 1, w.len() as int),
    decreases x.len() - i,
{
    if i <= w.len() {
        lemma_unescape_plain(x, w, i + 1);
        assert(x[i] == w[i - 1]);
        assert(unescape(x, i) =~= w.subrange(i - 1, w.len() as int));
    } else {
        assert(x[i] == '"');
        assert(w.subrange(i - 1, w.len() as int) =~= Seq::<char>::empty());
    }
}

proof fn lemma_trim_empty(w: Seq<char>)
    requires
        w.len() == 0,
    ensures
        trim(w) == w,
{
    assert(w =~= seq![]);
}

proof fn lemma_args_in_append(s: Seq<char>, a: Seq<Token>, b: Seq<Token>)
    ensures
        args_in(s, a + b) == args_in(s, a) + args_in(s, b),
        forall|l: bool| #[trigger] opts_in(s, a + b, l) == opts_in(s, a, l) + opts_in(s, b, l),
    decreases b.len(),
{
    if b.len() == 0 {
        assert(a + b =~= a);
        assert(args_in(s, a) + args_in(s, b) =~= args_in(s, a));
        assert forall|l: bool| #[trigger] opts_in(s, a + b, l) == opts_in(s, a, l) + opts_in(s, b, l) by {
            assert(opts_in(s, a, l) + opts_in(s, b, l) =~= opts_in(s, a, l));
        }
    } else {
        lemma_args_in_append(s, a, b.drop_last());
        assert((a + b).drop_last() =~= a + b.drop_last());
        assert((a + b).last() == b.last());
        match b.last() {
            Token::Arg(sp) => {
                assert(args_in(s, a + b) =~= args_in(s, a) + args_in(s, b));
            },
            Token::Opt(o) => {
                assert(args_in(s, a + b) =~= args_in(s, a) + args_in(s, b));
            },
        }
        assert forall|l: bool| #[trigger] opts_in(s, a + b, l) == opts_in(s, a, l) + opts_in(s, b, l) by {
            assert(opts_in(s, a + b.drop_last(), l) == opts_in(s, a, l) + opts_in(s, b.drop_last(), l));
            assert(opts_in(s, a + b, l) =~= opts_in(s, a, l) + opts_in(s, b, l));
        }
    }
}

/// Past a blank, the tokens are those from the next offset.
proof fn lemma_skip_blank(s: Seq<char>, p: int)
    requires
        0 <= p < s.len(),
        is_blank(s[p]),
    ensures
        tokens_from(s, p) == tokens_from(s, p + 1),
{
    let q = blank_end(s, p);
    assert(q == blank_end(s, p + 1));
    lemma_blank_end(s, p + 1);
    if q < s.len() {
        lemma_token_at(s, q);
    }
}

/// One rendered argument, after a blank, reads back as one argument token with its text.
#[verifier::rlimit(60)]
proof fn lemma_one_arg(s: Seq<char>, p: int, w: Seq<char>, tail: Seq<char>) -> (tok: Token)
    requires
        0 <= p <= s.len() <= usize::MAX,
        s.subrange(p, s.len() as int) == seq![' '] + render_arg(w) + tail,
        tail.len() == 0 || is_blank(tail[0]),
        plain_arg(w),
    ensures
        tokens_from(s, p) == seq![tok] + tokens_from(s, p + 1 + render_arg(w).len()),
        args_in(s, seq![tok]) == seq![w],
        forall|l: bool| #[trigger] opts_in(s, seq![tok], l) == Seq::<(Seq<char>, Seq<char>)>::empty(),
{
    let x = render_arg(w);
    let u = s.subrange(p, s.len() as int);
    let q = p + 1;
    let e = q + x.len();
    let quoted = w.contains(' ');
    assert(u.len() == 1 + x.len() + tail.len());
    assert forall|j: int| 0 <= j < u.len() implies u[j] == s[p + j] by {}
    assert forall|j: int| 0 <= j < x.len() implies s[q + j] == #[trigger] x[j] by {
        assert(u[1 + j] == x[j]);
    }
    assert(s[p] == ' ') by { assert(u[0] == ' '); }
    assert(e == s.len() || is_blank(s[e])) by {
        if e < s.len() {
            assert(u[e - p] == tail[0]);
        }
    }
    if !quoted {
        assert forall|j: int| 0 <= j < w.len() implies is_word_char(#[trigger] w[j]) by {
            if is_blank(w[j]) {
                assert(w[j] == ' ');
                assert(w.contains(' '));
            }
        }
    }
    assert(s[q] == x[0]);
    assert(!is_blank(s[q]) && s[q] != '-') by {
        if !quoted {
            assert(is_word_char(w[0]));
        }
    }
    assert(blank_end(s, q) == q);
    assert(blank_end(s, p) == blank_end(s, q));
    assert(text_of(s, span(q, e)) =~= x) by {
        assert forall|j: int| 0 <= j < x.len() implies s.subrange(q, e)[j] == x[j] by {
            assert(s[q + j] == x[j]);
        }
    }
    if quoted {
        assert forall|k: int| q + 1 <= k < e - 1 implies #[trigger] s[k] != '"' && s[k] != '\\' by {
            assert(s[q + (k - q)] == x[k - q]);
            assert(x[k - q] == w[k - q - 1]);
        }
        assert(s[e - 1] == '"') by {
            assert(s[q + (x.len() - 1)] == x[x.len() - 1]);
        }
        lemma_run_quote(s, q + 1, e - 1);
        assert(token_end(s, q) == e);
        lemma_unescape_plain(x, w, 1);
        assert(w.subrange(0, w.len() as int) =~= w);
        assert(token_text(x) == w);
    } else {
        assert forall|k: int| q <= k < e implies is_word_char(#[trigger] s[k]) by {
            assert(s[q + (k - q)] == x[k - q]);
        }
        lemma_run_word(s, q, e);
        assert(token_end(s, q) == e);
        assert(is_word_char(w[w.len() - 1]));
        lemma_trim_plain(w);
        assert(token_text(x) == w);
    }
    let tok = Token::Arg(span(q, e));
    assert(token_at(s, q) == (tok, e));
    assert(tokens_from(s, p) == seq![tok] + tokens_from(s, e));
    assert(seq![tok].drop_last() =~= Seq::<Token>::empty());
    assert(args_in(s, Seq::<Token>::empty()) == Seq::<Seq<char>>::empty());
    assert(args_in(s, seq![tok]) =~= seq![w]);
    assert forall|l: bool| #[trigger] opts_in(s, seq![tok], l) == Seq::<(Seq<char>, Seq<char>)>::empty() by {
        assert(opts_in(s, Seq::<Token>::empty(), l) == Seq::<(Seq<char>, Seq<char>)>::empty());
    }
    tok
}

/// The rendered arguments read back as themselves, and as no option.
#[verifier::rlimit(60)]
proof fn lemma_args_read(s: Seq<char>, p: int, a: Seq<Seq<char>>, rest: Seq<char>)
    requires
        0 <= p <= s.len() <= usize::MAX,
        s.subrange(p, s.len() as int) == render_args(a) + rest,
        rest.len() == 0 || rest[0] == ' ',
        forall|i: int| 0 <= i < a.len() ==> plain_arg(#[trigger] a[i]),
    ensures
        args_in(s, tokens_from(s, p)) == a + args_in(s, tokens_from(s, p + render_args(a).len())),
        forall|l: bool| #[trigger] opts_in(s, tokens_from(s, p), l) == opts_in(s, tokens_from(s, p + render_args(a).len()), l),
    decreases a.len(),
{
    if a.len() == 0 {
        assert(a + args_in(s, tokens_from(s, p)) =~= args_in(s, tokens_from(s, p)));
    } else {
        let w = a[0];
        let t = a.drop_first();
        let x = render_arg(w);
        let tail = render_args(t) + rest;
        let u = s.subrange(p, s.len() as int);
        let r = render_args(a);
        assert(r =~= seq![' '] + x + render_args(t));
        assert(u =~= seq![' '] + x + tail);
        assert(tail.len() == 0 || is_blank(tail[0])) by {
            if t.len() > 0 {
                assert(render_args(t) =~= seq![' '] + render_arg(t[0]) + render_args(t.drop_first()));
                assert(tail[0] == ' ');
            } else {
                assert(tail =~= rest);
            }
        }
        let tok = lemma_one_arg(s, p, w, tail);
        let e = p + 1 + x.len();
        lemma_args_in_append(s, seq![tok], tokens_from(s, e));
        assert(s.subrange(e, s.len() as int) =~= render_args(t) + rest) by {
            assert(s.subrange(e, s.len() as int) =~= u.subrange(e - p, u.len() as int));
        }
        assert(forall|i: int| 0 <= i < t.len() ==> plain_arg(#[trigger] t[i])) by {
            assert forall|i: int| 0 <= i < t.len() implies plain_arg(#[trigger] t[i]) by {
                assert(t[i] == a[i + 1]);
            }
        }
        lemma_args_read(s, e, t, rest);
        let f = e + render_args(t).len();
        assert(p + r.len() == f);
        assert(seq![w] + (t + args_in(s, tokens_from(s, f))) =~= a + args_in(s, tokens_from(s, f)));
        assert forall|l: bool| #[trigger] opts_in(s, tokens_from(s, p), l) == opts_in(s, tokens_from(s, f), l) by {
            assert(opts_in(s, tokens_from(s, p), l) == opts_in(s, seq![tok], l) + opts_in(s, tokens_from(s, e), l));
            assert(opts_in(s, seq![tok], l) + opts_in(s, tokens_from(s, e), l) =~= opts_in(s, tokens_from(s, e), l));
        }
    }
}

/// A rendered value after `=` at `ke` reads back as itself and ends at `e`.
#[verifier::rlimit(60)]
proof fn lemma_value_read(s: Seq<char>, ke: int, v: Seq<char>, e: int)
    requires
        0 <= ke,
        ke + 1 + render_value(v).len() == e <= s.len() <= usize::MAX,
        v.len() > 0,
        s[ke] == '=',
        forall|j: int| ke + 1 <= j < e ==> #[trigger] s[j] == render_value(v)[j - ke - 1],
        e == s.len() || is_blank(s[e]),
        forall|i: int| 0 <= i < v.len() ==> {
            &&& #[trigger] v[i] != '"'
            &&& v[i] != '\\'
            &&& (is_blank(v[i]) ==> v[i] == ' ')
        },
    ensures
        eq_end(s, ke) == ke + 1,
        e == if is_value_char(s[ke + 1]) {
            value_end(s, ke + 1)
        } else if s[ke + 1] == '"' {
            quote_end(s, ke + 2)
        } else {
            ke + 1
        },
        token_text(text_of(s, span(ke + 1, e))) == v,
{
    let rv = render_value(v);
    assert(s[ke + 1] == rv[0]);
    if all_value(v) {
        assert forall|j: int| ke + 1 <= j < e implies is_value_char(#[trigger] s[j]) by {
            assert(s[j] == rv[j - ke - 1]);
        }
        assert(is_value_char(v[0]));
        assert(eq_end(s, ke + 1) == ke + 1);
        lemma_run_value(s, ke + 1, e);
    } else {
        assert(eq_end(s, ke + 1) == ke + 1);
        assert forall|j: int| ke + 2 <= j < e - 1 implies #[trigger] s[j] != '"' && s[j] != '\\' by {
            assert(s[j] == rv[j - ke - 1]);
            assert(rv[j - ke - 1] == v[j - ke - 2]);
        }
        assert(s[e - 1] == '"') by {
            assert(s[e - 1] == rv[e - 1 - ke - 1]);
        }
        lemma_run_quote(s, ke + 2, e - 1);
    }
    assert(text_of(s, span(ke + 1, e)) =~= rv) by {
        assert forall|j: int| 0 <= j < rv.len() implies s.subrange(ke + 1, e)[j] == rv[j] by {
            assert(s[ke + 1 + j] == rv[j]);
        }
    }
    if all_value(v) {
        assert(is_value_char(v[0]) && is_value_char(v[v.len() - 1]));
        lemma_trim_plain(v);
    } else {
        lemma_unescape_plain(rv, v, 1);
        assert(v.subrange(0, v.len() as int) =~= v);
    }
}

/// After a rendered option comes the end of the line, or a blank and a dash.
proof fn lemma_option_followed(s: Seq<char>, p: int, x: Seq<char>, tail: Seq<char>)
    requires
        0 <= p <= s.len(),
        s.subrange(p, s.len() as int) == seq![' '] + x + tail,
        tail.len() == 0 || (tail.len() > 1 && tail[0] == ' ' && tail[1] == '-'),
    ensures
        p + 1 + x.len() == s.len() || (p + 2 + x.len() < s.len() && s[p + 1 + x.len()] == ' '
            && s[p + 2 + x.len()] == '-'),
{
    let u = s.subrange(p, s.len() as int);
    let e = p + 1 + x.len();
    assert(u.len() == 1 + x.len() + tail.len());
    if e < s.len() {
        assert(u[e - p] == tail[0]);
        assert(u[e - p + 1] == tail[1]);
        assert(s[e] == u[e - p]);
        assert(s[e + 1] == u[e - p + 1]);
    }
}

/// One rendered option, after a blank, reads back as one option token with its key and value.
#[verifier::rlimit(100)]
proof fn lemma_one_opt(s: Seq<char>, p: int, kv: (Seq<char>, Seq<char>), long: bool, tail: Seq<char>) -> (tok: Token)
    requires
        0 <= p <= s.len() <= usize::MAX,
        s.subrange(p, s.len() as int) == seq![' '] + render_opt(kv, long) + tail,
        tail.len() == 0 || (tail.len() > 1 && tail[0] == ' ' && tail[1] == '-'),
        plain_opt(kv),
    ensures
        tokens_from(s, p) == seq![tok] + tokens_from(s, p + 1 + render_opt(kv, long).len()),
        opts_in(s, seq![tok], long) == seq![kv],
        opts_in(s, seq![tok], !long) == Seq::<(Seq<char>, Seq<char>)>::empty(),
        args_in(s, seq![tok]) == Seq::<Seq<char>>::empty(),
{
    let k = kv.0;
    let v = kv.1;
    let x = render_opt(kv, long);
    let rv = render_value(v);
    let u = s.subrange(p, s.len() as int);
    let d: int = if long { 2 } else { 1 };
    let ks = p + 1 + d;
    let ke = ks + k.len();
    let e = p + 1 + x.len();
    assert(x.len() == d + k.len() + (if v.len() == 0 { 0 } else { 1 + rv.len() }));
    assert forall|j: int| 0 <= j < u.len() implies u[j] == s[p + j] by {}
    assert(s[p] == ' ') by { assert(u[0] == ' '); }
    assert(s[p + 1] == '-') by { assert(u[1] == x[0]); }
    assert forall|j: int| ks <= j < ke implies is_key_char(#[trigger] s[j]) by {
        assert(u[j - p] == x[j - p - 1]);
        assert(x[j - p - 1] == k[j - ks]);
    }
    lemma_option_followed(s, p, x, tail);
    if long {
        assert(s[p + 2] == '-') by { assert(u[2] == x[1]); }
    } else {
        assert(s[p + 2] == k[0]) by { assert(u[2] == x[1]); }
    }
    assert(ke == s.len() || !is_key_char(s[ke])) by {
        if ke < s.len() {
            if v.len() > 0 {
                assert(u[ke - p] == x[ke - p - 1]);
                assert(s[ke] == '=');
            } else {
                assert(ke == e);
            }
        }
    }
    lemma_run_key(s, ks, ke);
    assert(s[ks] == k[0]) by { assert(u[ks - p] == x[ks - p - 1]); }
    let q = p + 1;
    assert(blank_end(s, q) == q);
    assert(blank_end(s, p) == blank_end(s, q));
    let end: int = if v.len() > 0 { e } else if e < s.len() { e + 1 } else { e };
    let vs: int = if v.len() > 0 { ke + 1 } else { end };
    if v.len() > 0 {
        assert(s[ke] == '=') by { assert(u[ke - p] == x[ke - p - 1]); }
        assert forall|j: int| ke + 1 <= j < e implies #[trigger] s[j] == rv[j - ke - 1] by {
            assert(u[j - p] == x[j - p - 1]);
            assert(x[j - p - 1] == rv[j - ke - 1]);
        }
        lemma_value_read(s, ke, v, e);
    } else if e < s.len() {
        assert(blank_end(s, ke + 1) == ke + 1);
        assert(blank_end(s, ke) == ke + 1);
    }
    let op = OptSpan { long, start: q as usize, key: span(ks, ke), value: span(vs, end) };
    assert(option_at(s, q) == Some((op, end)));
    let tok = Token::Opt(op);
    assert(token_at(s, q) == (tok, end));
    assert(tokens_from(s, p) == seq![tok] + tokens_from(s, end));
    if end != e {
        lemma_skip_blank(s, e);
    }
    assert(text_of(s, span(ks, ke)) =~= k) by {
        assert forall|j: int| 0 <= j < k.len() implies s.subrange(ks, ke)[j] == k[j] by {
            assert(u[ks + j - p] == x[ks + j - p - 1]);
        }
    }
    lemma_trim_plain(k);
    if v.len() > 0 {
        assert(token_text(text_of(s, span(vs, end))) == v);
    } else {
        assert(text_of(s, span(vs, end)) =~= v);
        lemma_trim_empty(v);
    }
    assert(seq![tok].drop_last() =~= Seq::<Token>::empty());
    assert(opts_in(s, Seq::<Token>::empty(), long) == Seq::<(Seq<char>, Seq<char>)>::empty());
    assert(opts_in(s, Seq::<Token>::empty(), !long) == Seq::<(Seq<char>, Seq<char>)>::empty());
    assert(args_in(s, Seq::<Token>::empty()) == Seq::<Seq<char>>::empty());
    assert(opts_in(s, seq![tok], long) =~= seq![kv]);
    assert(opts_in(s, seq![tok], !long) =~= Seq::<(Seq<char>, Seq<char>)>::empty());
    tok
}

/// The rendered options of one form read back as themselves, and as nothing else.
#[verifier::rlimit(100)]
proof fn lemma_opts_read(s: Seq<char>, p: int, o: Seq<(Seq<char>, Seq<char>)>, long: bool, rest: Seq<char>)
    requires
        0 <= p <= s.len() <= usize::MAX,
        s.subrange(p, s.len() as int) == render_opts(o, long) + rest,
        rest.len() == 0 || (rest.len() > 1 && rest[0] == ' ' && rest[1] == '-'),
        forall|i: int| 0 <= i < o.len() ==> plain_opt(#[trigger] o[i]),
    ensures
        opts_in(s, tokens_from(s, p), long) == o + opts_in(s, tokens_from(s, p + render_opts(o, long).len()), long),
        opts_in(s, tokens_from(s, p), !long) == opts_in(s, tokens_from(s, p + render_opts(o, long).len()), !long),
        args_in(s, tokens_from(s, p)) == args_in(s, tokens_from(s, p + render_opts(o, long).len())),
    decreases o.len(),
{
    let r = render_opts(o, long);
    if o.len() == 0 {
        assert(o + opts_in(s, tokens_from(s, p), long) =~= opts_in(s, tokens_from(s, p), long));
    } else {
        let kv = o[0];
        let t = o.drop_first();
        let x = render_opt(kv, long);
        let tail = render_opts(t, long) + rest;
        let u = s.subrange(p, s.len() as int);
        assert(r =~= seq![' '] + x + render_opts(t, long));
        assert(u =~= seq![' '] + x + tail);
        let e = p + 1 + x.len();
        assert(tail.len() == 0 || (tail.len() > 1 && tail[0] == ' ' && tail[1] == '-')) by {
            if t.len() > 0 {
                assert(render_opts(t, long) =~= seq![' '] + render_opt(t[0], long) + render_opts(t.drop_first(), long));
                assert(tail[0] == ' ');
                assert(tail[1] == '-');
            } else {
                assert(tail =~= rest);
            }
        }
        let tok = lemma_one_opt(s, p, kv, long, tail);
        lemma_args_in_append(s, seq![tok], tokens_from(s, e));
        assert(s.subrange(e, s.len() as int) =~= render_opts(t, long) + rest) by {
            assert(s.subrange(e, s.len() as int) =~= u.subrange(e - p, u.len() as int));
        }
        assert(forall|i: int| 0 <= i < t.len() ==> plain_opt(#[trigger] t[i])) by {
            assert forall|i: int| 0 <= i < t.len() implies plain_opt(#[trigger] t[i]) by {
                assert(t[i] == o[i + 1]);
            }
        }
        lemma_opts_read(s, e, t, long, rest);
        let f = e + render_opts(t, long).len();
        assert(p + r.len() == f);
        assert(opts_in(s, tokens_from(s, p), long) == seq![kv] + opts_in(s, tokens_from(s, e), long));
        assert(seq![kv] + (t + opts_in(s, tokens_from(s, f), long)) =~= o + opts_in(s, tokens_from(s, f), long));
        assert(opts_in(s, tokens_from(s, p), !long) == Seq::<(Seq<char>, Seq<char>)>::empty() + opts_in(s, tokens_from(s, e), !long));
        assert(Seq::<(Seq<char>, Seq<char>)>::empty() + opts_in(s, tokens_from(s, e), !long) =~= opts_in(s, tokens_from(s, e), !long));
        assert(Seq::<Seq<char>>::empty() + args_in(s, tokens_from(s, e)) =~= args_in(s, tokens_from(s, e)));
    }
}

proof fn lemma_render_args_push(a: Seq<Seq<char>>, x: Seq<char>)
    ensures
        render_args(a.push(x)) == render_args(a) + seq![' '] + render_arg(x),
    decreases a.len(),
{
    if a.len() == 0 {
        assert(a.push(x).drop_first() =~= Seq::<Seq<char>>::empty());
        assert(a.push(x)[0] == x);
        assert(render_args(Seq::<Seq<char>>::empty()) == Seq::<char>::empty());
        assert(render_args(a.push(x)) == seq![' '] + render_arg(x) + render_args(Seq::<Seq<char>>::empty()));
        assert(render_args(a.push(x)) =~= render_args(a) + seq![' '] + render_arg(x));
    } else {
        lemma_render_args_push(a.drop_first(), x);
        assert(a.push(x).drop_first() =~= a.drop_first().push(x));
        assert(a.push(x)[0] == a[0]);
        assert(render_args(a.push(x)) == seq![' '] + render_arg(a[0]) + render_args(a.drop_first().push(x)));
        assert(render_args(a.push(x)) =~= render_args(a) + seq![' '] + render_arg(x));
    }
}

proof fn lemma_render_opts_push(o: Seq<(Seq<char>, Seq<char>)>, x: (Seq<char>, Seq<char>), long: bool)
    ensures
        render_opts(o.push(x), long) == render_opts(o, long) + seq![' '] + render_opt(x, long),
    decreases o.len(),
{
    if o.len() == 0 {
        assert(o.push(x).drop_first() =~= Seq::<(Seq<char>, Seq<char>)>::empty());
        assert(o.push(x)[0] == x);
        assert(render_opts(Seq::<(Seq<char>, Seq<char>)>::empty(), long) == Seq::<char>::empty());
        assert(render_opts(o.push(x), long) == seq![' '] + render_opt(x, long) + render_opts(Seq::<(Seq<char>, Seq<char>)>::empty(), long));
        assert(render_opts(o.push(x), long) =~= render_opts(o, long) + seq![' '] + render_opt(x, long));
    } else {
        lemma_render_opts_push(o.drop_first(), x, long);
        assert(o.push(x).drop_first() =~= o.drop_first().push(x));
        assert(o.push(x)[0] == o[0]);
        assert(render_opts(o.push(x), long) == seq![' '] + render_opt(o[0], long) + render_opts(o.drop_first().push(x), long));
        assert(render_opts(o.push(x), long) =~= render_opts(o, long) + seq![' '] + render_opt(x, long));
    }
}

fn push_str(out: &mut Vec<char>, s: &String)
    ensures
        final(out)@ == old(out)@ + s@,
{
    let mut cs = chars_of(s.as_str());
    out.append(&mut cs);
}

fn has_space(cs: &Vec<char>) -> (r: bool)
    ensures
        r == cs@.contains(' '),
{
    let mut i: usize = 0;
    while i < cs.len()
        invariant
            i <= cs@.len(),
            forall|k: int| 0 <= k < i ==> cs@[k] != ' ',
        decreases cs.len() - i,
    {
        if cs[i] == ' ' {
            assert(cs@[i as int] == ' ');
            return true;
        }
        i = i + 1;
    }
    false
}

fn push_arg(out: &mut Vec<char>, a: &String)
    ensures
        final(out)@ == old(out)@ + render_arg(a@),
{
    let ghost before = out@;
    let mut cs = chars_of(a.as_str());
    if has_space(&cs) {
        out.push('"');
        out.append(&mut cs);
        out.push('"');
        assert(out@ =~= before + (seq!['"'] + a@ + seq!['"']));
    } else {
        out.append(&mut cs);
    }
}

fn all_value_chars(cs: &Vec<char>) -> (r: bool)
    ensures
        r == all_value(cs@),
{
    let mut i: usize = 0;
    while i < cs.len()
        invariant
            i <= cs@.len(),
            forall|k: int| 0 <= k < i ==> is_value_char(#[trigger] cs@[k]),
        decreases cs.len() - i,
    {
        let c = cs[i];
        if blank(c) || c == '"' || c == '-' || c == '=' {
            return false;
        }
        i = i + 1;
    }
    true
}

fn push_opt(out: &mut Vec<char>, k: &String, v: &String, long: bool)
    ensures
        final(out)@ == old(out)@ + seq![' '] + render_opt((k@, v@), long),
{
    let ghost before = out@;
    out.push(' ');
    out.push('-');
    if long {
        out.push('-');
    }
    push_str(out, k);
    let mut vc = chars_of(v.as_str());
    if vc.len() > 0 {
        out.push('=');
        if all_value_chars(&vc) {
            out.append(&mut vc);
        } else {
            out.push('"');
            out.append(&mut vc);
            out.push('"');
        }
    }
    assert(out@ =~= before + seq![' '] + render_opt((k@, v@), long));
}

fn push_opts(out: &mut Vec<char>, o: &Vec<(String, String)>, long: bool)
    ensures
        final(out)@ == old(out)@ + render_opts(pairs_view(o@), long),
{
    let ghost start = out@;
    let ghost ov = pairs_view(o@);
    let mut i: usize = 0;
    assert(ov.subrange(0, 0) =~= Seq::<(Seq<char>, Seq<char>)>::empty());
    assert(out@ =~= start + render_opts(ov.subrange(0, 0), long));
    while i < o.len()
        invariant
            i <= o@.len(),
            ov == pairs_view(o@),
            out@ == start + render_opts(ov.subrange(0, i as int), long),
        decreases o.len() - i,
    {
        let ghost before = out@;
        push_opt(out, &o[i].0, &o[i].1, long);
        proof {
            let kv = ov[i as int];
            lemma_render_opts_push(ov.subrange(0, i as int), kv, long);
            assert(ov.subrange(0, i + 1) =~= ov.subrange(0, i as int).push(kv));
        }
        i = i + 1;
    }
    assert(ov.subrange(0, i as int) =~= ov);
}

impl Command {
    /// The line of this command: name, arguments, short options, long options, each
    /// after a blank; an argument that holds a space between quotes; an option as `-k`
    /// or `--k`, with `=v` when its value is not empty, the value between quotes unless
    /// it is all value characters.
    pub fn to_line(&self) -> (r: String)
        ensures
            r@ == render_line(self.name@, strings_view(self.args@), pairs_view(self.options@),
                pairs_view(self.long_options@)),
    {
        let mut out: Vec<char> = Vec::new();
        push_str(&mut out, &self.name);
        let ghost av = strings_view(self.args@);
        let mut i: usize = 0;
        assert(av.subrange(0, 0) =~= Seq::<Seq<char>>::empty());
        assert(out@ =~= self.name@ + render_args(av.subrange(0, 0)));
        while i < self.args.len()
            invariant
                i <= self.args@.len(),
                av == strings_view(self.args@),
                out@ == self.name@ + render_args(av.subrange(0, i as int)),
            decreases self.args.len() - i,
        {
            let ghost before = out@;
            out.push(' ');
            push_arg(&mut out, &self.args[i]);
            proof {
                lemma_render_args_push(av.subrange(0, i as int), av[i as int]);
                assert(av.subrange(0, i + 1) =~= av.subrange(0, i as int).push(av[i as int]));
                assert(out@ =~= before + seq![' '] + render_arg(av[i as int]));
            }
            i = i + 1;
        }
        assert(av.subrange(0, i as int) =~= av);
        push_opts(&mut out, &self.options, false);
        push_opts(&mut out, &self.long_options, true);
        assert(out@ =~= render_line(self.name@, av, pairs_view(self.options@), pairs_view(self.long_options@)));
        string_of(out.as_slice())
    }
}

} // verus!
