//! The command tokenizer: a forward scan of a line into a name, arguments and options.

use vstd::prelude::*;
use crate::text::{chars_of, string_of};

verus! {

/// A half-open interval `[start, end)` of character offsets.
#[derive(Clone, Copy, Debug, PartialEq, Eq)]
pub struct Span {
    pub start: usize,
    pub end: usize,
}

/// An option: `-key` or `--key`, with an optional value after `=` or blanks.
/// `start` is the offset of the first dash; `key` excludes the dashes.
#[derive(Clone, Copy, Debug, PartialEq, Eq)]
pub struct OptSpan {
    pub long: bool,
    pub start: usize,
    pub key: Span,
    pub value: Span,
}

/// One token after the name, in the order of the text.
#[derive(Clone, Copy, Debug, PartialEq, Eq)]
pub enum Token {
    Arg(Span),
    Opt(OptSpan),
}

pub open spec fn span(a: int, b: int) -> Span {
    Span { start: a as usize, end: b as usize }
}

/// Whitespace that separates tokens: the characters with Unicode's `White_Space`
/// property, as `char::is_whitespace` gives them.
pub open spec fn is_blank(c: char) -> bool {
    let x = c as u32;
    ||| (0x09 <= x <= 0x0D)
    ||| x == 0x20
    ||| x == 0x85
    ||| x == 0xA0
    ||| x == 0x1680
    ||| (0x2000 <= x <= 0x200A)
    ||| x == 0x2028
    ||| x == 0x2029
    ||| x == 0x202F
    ||| x == 0x205F
    ||| x == 0x3000
}

/// Characters that make up a bare word.
pub open spec fn is_word_char(c: char) -> bool {
    !is_blank(c) && c != '"'
}

/// Characters that make up an option key: identifier characters (letters, digits,
/// underscore, and any character beyond ASCII that is not whitespace).
pub open spec fn is_key_char(c: char) -> bool {
    ||| c == '_'
    ||| ('a' <= c <= 'z')
    ||| ('A' <= c <= 'Z')
    ||| ('0' <= c <= '9')
    ||| ((c as int) > 127 && !is_blank(c))
}

/// Characters that make up a bare option value.
pub open spec fn is_value_char(c: char) -> bool {
    !is_blank(c) && c != '"' && c != '-' && c != '='
}

pub open spec fn is_digit_char(c: char) -> bool {
    '0' <= c <= '9'
}

/// End of the run of blanks that starts at `i`.
pub open spec fn blank_end(s: Seq<char>, i: int) -> int
    decreases s.len() - i,
{
    if 0 <= i < s.len() && is_blank(s[i]) {
        blank_end(s, i + 1)
    } else {
        i
    }
}

/// End of the run of word characters that starts at `i`.
pub open spec fn word_end(s: Seq<char>, i: int) -> int
    decreases s.len() - i,
{
    if 0 <= i < s.len() && is_word_char(s[i]) {
        word_end(s, i + 1)
    } else {
        i
    }
}

/// End of the run of key characters that starts at `i`.
pub open spec fn key_end(s: Seq<char>, i: int) -> int
    decreases s.len() - i,
{
    if 0 <= i < s.len() && is_key_char(s[i]) {
        key_end(s, i + 1)
    } else {
        i
    }
}

/// End of the run of value characters that starts at `i`.
pub open spec fn value_end(s: Seq<char>, i: int) -> int
    decreases s.len() - i,
{
    if 0 <= i < s.len() && is_value_char(s[i]) {
        value_end(s, i + 1)
    } else {
        i
    }
}

/// End of the run of `=` that starts at `i`.
pub open spec fn eq_end(s: Seq<char>, i: int) -> int
    decreases s.len() - i,
{
    if 0 <= i < s.len() && s[i] == '=' {
        eq_end(s, i + 1)
    } else {
        i
    }
}

/// End of a quoted string whose body starts at `i` (just after the opening quote):
/// just past the first quote not escaped by a backslash, or the end of the text.
pub open spec fn quote_end(s: Seq<char>, i: int) -> int
    decreases s.len() - i,
{
    if i < 0 || i >= s.len() {
        i
    } else if s[i] == '"' {
        i + 1
    } else if s[i] == '\\' && i + 1 < s.len() && s[i + 1] == '"' {
        quote_end(s, i + 2)
    } else {
        quote_end(s, i + 1)
    }
}

/// End of the word or quoted string that starts at `q`.
pub open spec fn token_end(s: Seq<char>, q: int) -> int {
    if s[q] == '"' {
        quote_end(s, q + 1)
    } else {
        word_end(s, q)
    }
}

/// The option that starts with the dash at `q`, with the offset where it ends.
pub open spec fn option_at(s: Seq<char>, q: int) -> Option<(OptSpan, int)> {
    let long = q + 1 < s.len() && s[q + 1] == '-';
    let ks = if long { q + 2 } else { q + 1 };
    let ke = key_end(s, ks);
    if ke <= ks || is_digit_char(s[ks]) {
        None
    } else {
        let vs = if ke < s.len() && s[ke] == '=' { eq_end(s, ke) } else { blank_end(s, ke) };
        let ve = if vs < s.len() && is_value_char(s[vs]) {
            value_end(s, vs)
        } else if vs < s.len() && s[vs] == '"' {
            quote_end(s, vs + 1)
        } else {
            vs
        };
        Some((OptSpan { long, start: q as usize, key: span(ks, ke), value: span(vs, ve) }, ve))
    }
}

/// The token at the non-blank offset `q`: an option if one starts there, else an argument.
pub open spec fn token_at(s: Seq<char>, q: int) -> (Token, int) {
    if s[q] == '-' && option_at(s, q) is Some {
        let (o, e) = option_at(s, q).unwrap();
        (Token::Opt(o), e)
    } else {
        (Token::Arg(span(q, token_end(s, q))), token_end(s, q))
    }
}

/// The tokens of `s` from offset `p` on.
pub open spec fn tokens_from(s: Seq<char>, p: int) -> Seq<Token>
    decreases s.len() - p,
{
    let q = blank_end(s, p);
    if p < 0 || q >= s.len() {
        seq![]
    } else {
        let (t, e) = token_at(s, q);
        if e <= p || e > s.len() {
            seq![]
        } else {
            seq![t] + tokens_from(s, e)
        }
    }
}

/// Where the name may start: offset 0, or 1 after a single leading blank.
pub open spec fn name_start(s: Seq<char>) -> int {
    if s.len() > 0 && is_blank(s[0]) { 1 } else { 0 }
}

/// The span of the name, if the text has one.
pub open spec fn name_span(s: Seq<char>) -> Option<Span> {
    let ns = name_start(s);
    if ns < s.len() && !is_blank(s[ns]) {
        Some(span(ns, token_end(s, ns)))
    } else {
        None
    }
}

/// Where the scan for arguments and options starts.
pub open spec fn body_start(s: Seq<char>) -> int {
    if ns_has_name(s) { token_end(s, name_start(s)) } else { name_start(s) }
}

pub open spec fn ns_has_name(s: Seq<char>) -> bool {
    name_span(s) is Some
}

/// The tokens after the name.
pub open spec fn tokens_of(s: Seq<char>) -> Seq<Token> {
    tokens_from(s, body_start(s))
}

pub proof fn lemma_blank_end(s: Seq<char>, i: int)
    requires
        0 <= i <= s.len(),
    ensures
        i <= blank_end(s, i) <= s.len(),
        blank_end(s, i) < s.len() ==> !is_blank(s[blank_end(s, i)]),
    decreases s.len() - i,
{
    if i < s.len() && is_blank(s[i]) {
        lemma_blank_end(s, i + 1);
    }
}

proof fn lemma_word_end(s: Seq<char>, i: int)
    requires
        0 <= i <= s.len(),
    ensures
        i <= word_end(s, i) <= s.len(),
    decreases s.len() - i,
{
    if i < s.len() && is_word_char(s[i]) {
        lemma_word_end(s, i + 1);
    }
}

proof fn lemma_key_end(s: Seq<char>, i: int)
    requires
        0 <= i <= s.len(),
    ensures
        i <= key_end(s, i) <= s.len(),
    decreases s.len() - i,
{
    if i < s.len() && is_key_char(s[i]) {
        lemma_key_end(s, i + 1);
    }
}

proof fn lemma_value_end(s: Seq<char>, i: int)
    requires
        0 <= i <= s.len(),
    ensures
        i <= value_end(s, i) <= s.len(),
    decreases s.len() - i,
{
    if i < s.len() && is_value_char(s[i]) {
        lemma_value_end(s, i + 1);
    }
}

proof fn lemma_eq_end(s: Seq<char>, i: int)
    requires
        0 <= i <= s.len(),
    ensures
        i <= eq_end(s, i) <= s.len(),
    decreases s.len() - i,
{
    if i < s.len() && s[i] == '=' {
        lemma_eq_end(s, i + 1);
    }
}

proof fn lemma_quote_end(s: Seq<char>, i: int)
    requires
        0 <= i <= s.len(),
    ensures
        i <= quote_end(s, i) <= s.len(),
    decreases s.len() - i,
{
    if i < s.len() && s[i] != '"' {
        if s[i] == '\\' && i + 1 < s.len() && s[i + 1] == '"' {
            lemma_quote_end(s, i + 2);
        } else {
            lemma_quote_end(s, i + 1);
        }
    }
}

pub proof fn lemma_token_end(s: Seq<char>, q: int)
    requires
        0 <= q < s.len(),
        !is_blank(s[q]),
    ensures
        q < token_end(s, q) <= s.len(),
{
    lemma_quote_end(s, q + 1);
    lemma_word_end(s, q + 1);
    if s[q] != '"' {
        assert(word_end(s, q) == word_end(s, q + 1));
    }
}

/// The token at a non-blank offset ends past it, within the text.
pub proof fn lemma_token_at(s: Seq<char>, q: int)
    requires
        0 <= q < s.len(),
        !is_blank(s[q]),
    ensures
        q < token_at(s, q).1 <= s.len(),
{
    lemma_quote_end(s, q + 1);
    lemma_word_end(s, q + 1);
    if s[q] == '-' && option_at(s, q) is Some {
        let long = q + 1 < s.len() && s[q + 1] == '-';
        let ks = if long { q + 2 } else { q + 1 };
        lemma_key_end(s, ks);
        let ke = key_end(s, ks);
        lemma_eq_end(s, ke);
        lemma_blank_end(s, ke);
        let vs = if ke < s.len() && s[ke] == '=' { eq_end(s, ke) } else { blank_end(s, ke) };
        lemma_key_end(s, vs);
        lemma_value_end(s, vs);
        if vs < s.len() {
            lemma_quote_end(s, vs + 1);
        }
    } else if s[q] != '"' {
        assert(word_end(s, q) == word_end(s, q + 1));
    }
}

/// Executable form of `is_blank`.
pub fn blank(c: char) -> (r: bool)
    ensures
        r == is_blank(c),
{
    let x = c as u32;
    (0x09 <= x && x <= 0x0D) || x == 0x20 || x == 0x85 || x == 0xA0 || x == 0x1680
        || (0x2000 <= x && x <= 0x200A) || x == 0x2028 || x == 0x2029 || x == 0x202F
        || x == 0x205F || x == 0x3000
}

fn key_char(c: char) -> (r: bool)
    ensures
        r == is_key_char(c),
{
    c == '_' || ('a' <= c && c <= 'z') || ('A' <= c && c <= 'Z') || ('0' <= c && c <= '9') || ((c as u32) > 127 && !blank(c))
}

fn value_end_exec(s: &Vec<char>, i: usize) -> (r: usize)
    requires
        i <= s@.len(),
    ensures
        r == value_end(s@, i as int),
{
    let mut j = i;
    while j < s.len() && !blank(s[j]) && s[j] != '"' && s[j] != '-' && s[j] != '='
        invariant
            i <= j <= s@.len(),
            value_end(s@, j as int) == value_end(s@, i as int),
        decreases s.len() - j,
    {
        j = j + 1;
    }
    j
}

fn blank_end_exec(s: &Vec<char>, i: usize) -> (r: usize)
    requires
        i <= s@.len(),
    ensures
        r == blank_end(s@, i as int),
{
    let mut j = i;
    while j < s.len() && blank(s[j])
        invariant
            i <= j <= s@.len(),
            blank_end(s@, j as int) == blank_end(s@, i as int),
        decreases s.len() - j,
    {
        j = j + 1;
    }
    j
}

fn word_end_exec(s: &Vec<char>, i: usize) -> (r: usize)
    requires
        i <= s@.len(),
    ensures
        r == word_end(s@, i as int),
{
    let mut j = i;
    while j < s.len() && !blank(s[j]) && s[j] != '"'
        invariant
            i <= j <= s@.len(),
            word_end(s@, j as int) == word_end(s@, i as int),
        decreases s.len() - j,
    {
        j = j + 1;
    }
    j
}

fn key_end_exec(s: &Vec<char>, i: usize) -> (r: usize)
    requires
        i <= s@.len(),
    ensures
        r == key_end(s@, i as int),
{
    let mut j = i;
    while j < s.len() && key_char(s[j])
        invariant
            i <= j <= s@.len(),
            key_end(s@, j as int) == key_end(s@, i as int),
        decreases s.len() - j,
    {
        j = j + 1;
    }
    j
}

fn eq_end_exec(s: &Vec<char>, i: usize) -> (r: usize)
    requires
        i <= s@.len(),
    ensures
        r == eq_end(s@, i as int),
{
    let mut j = i;
    while j < s.len() && s[j] == '='
        invariant
            i <= j <= s@.len(),
            eq_end(s@, j as int) == eq_end(s@, i as int),
        decreases s.len() - j,
    {
        j = j + 1;
    }
    j
}

fn quote_end_exec(s: &Vec<char>, i: usize) -> (r: usize)
    requires
        i <= s@.len(),
    ensures
        r == quote_end(s@, i as int),
{
    let mut j = i;
    while j < s.len() && s[j] != '"'
        invariant
            i <= j <= s@.len(),
            quote_end(s@, j as int) == quote_end(s@, i as int),
        decreases s.len() - j,
    {
        if s[j] == '\\' && j + 1 < s.len() && s[j + 1] == '"' {
            j = j + 2;
        } else {
            j = j + 1;
        }
    }
    if j < s.len() {
        j + 1
    } else {
        j
    }
}

fn token_end_exec(s: &Vec<char>, q: usize) -> (r: usize)
    requires
        q < s@.len(),
    ensures
        r == token_end(s@, q as int),
{
    proof { assert(s.len() == s@.len()); }
    if s[q] == '"' {
        quote_end_exec(s, q + 1)
    } else {
        word_end_exec(s, q)
    }
}

fn option_at_exec(s: &Vec<char>, q: usize) -> (r: Option<(OptSpan, usize)>)
    requires
        q < s@.len(),
    ensures
        r matches Some((o, e)) ==> option_at(s@, q as int) == Some((o, e as int)),
        r is None ==> option_at(s@, q as int) is None,
{
    proof { assert(s.len() == s@.len()); }
    let long = q + 1 < s.len() && s[q + 1] == '-';
    let ks = if long { q + 2 } else { q + 1 };
    let ke = key_end_exec(s, ks);
    proof { lemma_key_end(s@, ks as int); }
    if ke <= ks {
        return None;
    }
    if '0' <= s[ks] && s[ks] <= '9' {
        return None;
    }
    let vs = if ke < s.len() && s[ke] == '=' { eq_end_exec(s, ke) } else { blank_end_exec(s, ke) };
    proof {
        lemma_eq_end(s@, ke as int);
        lemma_blank_end(s@, ke as int);
    }
    let ve = if vs < s.len() && !blank(s[vs]) && s[vs] != '"' && s[vs] != '-' && s[vs] != '=' {
        value_end_exec(s, vs)
    } else if vs < s.len() && s[vs] == '"' {
        quote_end_exec(s, vs + 1)
    } else {
        vs
    };
    Some((OptSpan { long, start: q, key: Span { start: ks, end: ke }, value: Span { start: vs, end: ve } }, ve))
}

fn token_at_exec(s: &Vec<char>, q: usize) -> (r: (Token, usize))
    requires
        q < s@.len(),
        !is_blank(s@[q as int]),
    ensures
        token_at(s@, q as int) == (r.0, r.1 as int),
{
    proof { lemma_token_at(s@, q as int); }
    if s[q] == '-' {
        if let Some((o, e)) = option_at_exec(s, q) {
            return (Token::Opt(o), e);
        }
    }
    let e = token_end_exec(s, q);
    (Token::Arg(Span { start: q, end: e }), e)
}

/// The tokens of a line: its name span and what follows it.
pub struct Format {
    raw: Vec<char>,
    name: Option<Span>,
    tokens: Vec<Token>,
}

impl Format {
    /// The text of the line.
    pub closed spec fn text(&self) -> Seq<char> {
        self.raw@
    }

    /// The span of the name, if any.
    pub closed spec fn name_spec(&self) -> Option<Span> {
        self.name
    }

    /// The tokens after the name, in order.
    pub closed spec fn tokens_spec(&self) -> Seq<Token> {
        self.tokens@
    }

    /// The spans are those that the scan of the text finds.
    pub open spec fn wf(&self) -> bool {
        &&& self.name_spec() == name_span(self.text())
        &&& self.tokens_spec() == tokens_of(self.text())
    }

    /// Tokenizes `content`.
    pub fn from(content: &str) -> (r: Format)
        ensures
            r.text() == content@,
            r.wf(),
    {
        let raw = chars_of(content);
        let n = raw.len();
        let ns: usize = if n > 0 && blank(raw[0]) { 1 } else { 0 };
        let mut pos: usize = ns;
        let mut name: Option<Span> = None;
        if ns < n && !blank(raw[ns]) {
            let e = token_end_exec(&raw, ns);
            proof { lemma_token_end(raw@, ns as int); }
            name = Some(Span { start: ns, end: e });
            pos = e;
        }
        assert(name == name_span(raw@));
        assert(pos as int == body_start(raw@));
        let mut tokens: Vec<Token> = Vec::new();
        assert(tokens@ + tokens_from(raw@, pos as int) =~= tokens_of(raw@));
        loop
            invariant
                pos <= n,
                n == raw@.len(),
                tokens@ + tokens_from(raw@, pos as int) == tokens_of(raw@),
            ensures
                tokens@ == tokens_of(raw@),
            decreases n - pos,
        {
            let q = blank_end_exec(&raw, pos);
            proof { lemma_blank_end(raw@, pos as int); }
            if q >= n {
                assert(tokens_from(raw@, pos as int) =~= seq![]);
                assert(tokens@ =~= tokens@ + tokens_from(raw@, pos as int));
                break;
            }
            let (t, e) = token_at_exec(&raw, q);
            proof {
                lemma_token_at(raw@, q as int);
                assert(tokens_from(raw@, pos as int) == seq![t] + tokens_from(raw@, e as int));
                assert(tokens@.push(t) + tokens_from(raw@, e as int) =~= tokens@ + (seq![t] + tokens_from(raw@, e as int)));
            }
            tokens.push(t);
            pos = e;
        }
        Format { raw, name, tokens }
    }
}

/// The text of `sp` in `s`.
pub open spec fn text_of(s: Seq<char>, sp: Span) -> Seq<char> {
    s.subrange(sp.start as int, sp.end as int)
}

/// End of `x[0..j)` once trailing blanks are dropped.
pub open spec fn trail_end(x: Seq<char>, j: int) -> int
    decreases j,
{
    if 0 < j <= x.len() && is_blank(x[j - 1]) {
        trail_end(x, j - 1)
    } else {
        j
    }
}

/// `x` without leading and trailing blanks.
pub open spec fn trim(x: Seq<char>) -> Seq<char> {
    let a = blank_end(x, 0);
    let b = trail_end(x, x.len() as int);
    if a >= b { seq![] } else { x.subrange(a, b) }
}

/// The content of the quoted text `x` from offset `i` on: up to the closing quote,
/// with each `\"` read as `"`.
pub open spec fn unescape(x: Seq<char>, i: int) -> Seq<char>
    decreases x.len() - i,
{
    if i < 0 || i >= x.len() || x[i] == '"' {
        seq![]
    } else if x[i] == '\\' && i + 1 < x.len() && x[i + 1] == '"' {
        seq!['"'] + unescape(x, i + 2)
    } else {
        seq![x[i]] + unescape(x, i + 1)
    }
}

/// The text a word or quoted string stands for: a quoted string's content, else the
/// word without surrounding blanks.
pub open spec fn token_text(x: Seq<char>) -> Seq<char> {
    if x.len() > 0 && x[0] == '"' { unescape(x, 1) } else { trim(x) }
}

/// The name of the command that `s` holds: the text of its name span, or empty.
pub open spec fn name_of(s: Seq<char>) -> Seq<char> {
    match name_span(s) {
        Some(sp) => text_of(s, sp),
        None => seq![],
    }
}

/// The texts of the argument tokens among `toks`, in order.
pub open spec fn args_in(s: Seq<char>, toks: Seq<Token>) -> Seq<Seq<char>>
    decreases toks.len(),
{
    if toks.len() == 0 {
        seq![]
    } else {
        let rest = args_in(s, toks.drop_last());
        match toks.last() {
            Token::Arg(sp) => rest.push(token_text(text_of(s, sp))),
            Token::Opt(_) => rest,
        }
    }
}

/// The (key, value) texts of the options among `toks` of the given form, in order.
pub open spec fn opts_in(s: Seq<char>, toks: Seq<Token>, long: bool) -> Seq<(Seq<char>, Seq<char>)>
    decreases toks.len(),
{
    if toks.len() == 0 {
        seq![]
    } else {
        let rest = opts_in(s, toks.drop_last(), long);
        match toks.last() {
            Token::Opt(o) => if o.long == long {
                rest.push((trim(text_of(s, o.key)), token_text(text_of(s, o.value))))
            } else {
                rest
            },
            Token::Arg(_) => rest,
        }
    }
}

/// The arguments of the command that `s` holds.
pub open spec fn args_of(s: Seq<char>) -> Seq<Seq<char>> {
    args_in(s, tokens_of(s))
}

/// The options of the command that `s` holds, short (`-k`) or long (`--k`).
pub open spec fn opts_of(s: Seq<char>, long: bool) -> Seq<(Seq<char>, Seq<char>)> {
    opts_in(s, tokens_of(s), long)
}

pub open spec fn strings_view(v: Seq<String>) -> Seq<Seq<char>> {
    v.map_values(|x: String| x@)
}

pub open spec fn pairs_view(v: Seq<(String, String)>) -> Seq<(Seq<char>, Seq<char>)> {
    v.map_values(|x: (String, String)| (x.0@, x.1@))
}

proof fn lemma_trail_end(x: Seq<char>, j: int)
    requires
        0 <= j <= x.len(),
    ensures
        0 <= trail_end(x, j) <= j,
    decreases j,
{
    if 0 < j && is_blank(x[j - 1]) {
        lemma_trail_end(x, j - 1);
    }
}

/// The trimmed text of `[a, b)` in `s`.
fn trimmed(s: &Vec<char>, a: usize, b: usize) -> (r: String)
    requires
        a <= b <= s@.len(),
    ensures
        r@ == trim(s@.subrange(a as int, b as int)),
{
    let ghost x = s@.subrange(a as int, b as int);
    let mut i = a;
    while i < b && blank(s[i])
        invariant
            a <= i <= b,
            b <= s@.len(),
            x == s@.subrange(a as int, b as int),
            blank_end(x, (i - a) as int) == blank_end(x, 0),
        decreases b - i,
    {
        i = i + 1;
    }
    let mut j = b;
    while j > i && blank(s[j - 1])
        invariant
            a <= i <= j <= b,
            b <= s@.len(),
            x == s@.subrange(a as int, b as int),
            trail_end(x, (j - a) as int) == trail_end(x, x.len() as int),
        decreases j,
    {
        assert(x[(j - a) as int - 1] == s@[j - 1]);
        j = j - 1;
    }
    proof {
        lemma_blank_end(x, (i - a) as int);
        lemma_trail_end(x, (j - a) as int);
        if j > i {
            assert(trail_end(x, (j - a) as int) == (j - a) as int);
        } else if i < b {
            lemma_trail_end(x, x.len() as int);
        }
    }
    let mut out: Vec<char> = Vec::new();
    let mut k = i;
    while k < j
        invariant
            i <= k <= j,
            j <= s@.len(),
            out@ == s@.subrange(i as int, k as int),
        decreases j - k,
    {
        out.push(s[k]);
        k = k + 1;
        assert(out@ =~= s@.subrange(i as int, k as int));
    }
    proof {
        if i < j {
            assert(out@ =~= x.subrange((i - a) as int, (j - a) as int));
        } else {
            assert(out@ =~= seq![]);
        }
    }
    string_of(out.as_slice())
}

/// The text that `[a, b)` of `s` stands for: see `token_text`.
fn text_at(s: &Vec<char>, a: usize, b: usize) -> (r: String)
    requires
        a <= b <= s@.len(),
    ensures
        r@ == token_text(s@.subrange(a as int, b as int)),
{
    if a < b && s[a] == '"' {
        let ghost x = s@.subrange(a as int, b as int);
        let mut out: Vec<char> = Vec::new();
        let mut j = a + 1;
        assert(out@ + unescape(x, (j - a) as int) =~= unescape(x, 1));
        while j < b && s[j] != '"'
            invariant
                a < j <= b + 1,
                b <= s@.len(),
                x == s@.subrange(a as int, b as int),
                j > b ==> j == b + 1,
                out@ + unescape(x, (j - a) as int) == unescape(x, 1),
            decreases b + 1 - j,
        {
            let ghost k = (j - a) as int;
            if s[j] == '\\' && j + 1 < b && s[j + 1] == '"' {
                assert(x[k] == s@[j as int] && x[k + 1] == s@[j + 1]);
                out.push('"');
                assert(out@ + unescape(x, k + 2) =~= out@.drop_last() + unescape(x, k));
                j = j + 2;
            } else {
                assert(x[k] == s@[j as int]);
                out.push(s[j]);
                assert(out@ + unescape(x, k + 1) =~= out@.drop_last() + unescape(x, k));
                j = j + 1;
            }
        }
        assert(unescape(x, (j - a) as int) =~= seq![]) by {
            if j < b {
                assert(x[(j - a) as int] == s@[j as int]);
            }
        }
        assert(out@ =~= out@ + unescape(x, (j - a) as int));
        string_of(out.as_slice())
    } else {
        trimmed(s, a, b)
    }
}

impl Format {
    /// The name: the text of the name span, or empty.
    pub fn get_name(&self) -> (r: String)
        requires
            self.wf(),
        ensures
            r@ == name_of(self.text()),
    {
        proof { assert(self.raw.len() == self.raw@.len()); }
        proof {
            if self.name is Some {
                lemma_token_end(self.raw@, name_start(self.raw@));
            }
        }
        match self.name {
            Some(sp) => {
                let mut out: Vec<char> = Vec::new();
                let mut k = sp.start;
                while k < sp.end
                    invariant
                        sp.start <= k <= sp.end,
                        sp.end <= self.raw@.len(),
                        out@ == self.raw@.subrange(sp.start as int, k as int),
                    decreases sp.end - k,
                {
                    out.push(self.raw[k]);
                    k = k + 1;
                    assert(out@ =~= self.raw@.subrange(sp.start as int, k as int));
                }
                string_of(out.as_slice())
            },
            None => String::new(),
        }
    }

    /// The arguments, in order: a quoted one by its content.
    pub fn get_args(&self) -> (r: Vec<String>)
        requires
            self.wf(),
        ensures
            strings_view(r@) == args_of(self.text()),
    {
        proof { assert(self.raw.len() == self.raw@.len()); }
        proof {
            if name_span(self.raw@) is Some {
                lemma_token_end(self.raw@, name_start(self.raw@));
            }
            lemma_token_bounds(self.raw@, body_start(self.raw@));
        }
        let mut out: Vec<String> = Vec::new();
        let mut i: usize = 0;
        while i < self.tokens.len()
            invariant
                self.wf(),
                i <= self.tokens@.len(),
                forall|k: int| 0 <= k < self.tokens@.len() ==> token_in_bounds(self.tokens@[k], self.raw@.len() as int),
                strings_view(out@) == args_in(self.raw@, self.tokens@.subrange(0, i as int)),
            decreases self.tokens.len() - i,
        {
            let ghost prev = out@;
            assert(self.tokens@.subrange(0, i + 1).drop_last() =~= self.tokens@.subrange(0, i as int));
            match self.tokens[i] {
                Token::Arg(sp) => {
                    let t = text_at(&self.raw, sp.start, sp.end);
                    out.push(t);
                    assert(strings_view(out@) =~= strings_view(prev).push(t@));
                },
                Token::Opt(_) => {},
            }
            i = i + 1;
        }
        assert(self.tokens@.subrange(0, i as int) =~= self.tokens@);
        out
    }

    /// The options of one form, short (`-k`) or long (`--k`), in order.
    pub fn get_options_of(&self, long: bool) -> (r: Vec<(String, String)>)
        requires
            self.wf(),
        ensures
            pairs_view(r@) == opts_of(self.text(), long),
    {
        proof { assert(self.raw.len() == self.raw@.len()); }
        proof {
            if name_span(self.raw@) is Some {
                lemma_token_end(self.raw@, name_start(self.raw@));
            }
            lemma_token_bounds(self.raw@, body_start(self.raw@));
        }
        let mut out: Vec<(String, String)> = Vec::new();
        let mut i: usize = 0;
        while i < self.tokens.len()
            invariant
                self.wf(),
                i <= self.tokens@.len(),
                forall|k: int| 0 <= k < self.tokens@.len() ==> token_in_bounds(self.tokens@[k], self.raw@.len() as int),
                pairs_view(out@) == opts_in(self.raw@, self.tokens@.subrange(0, i as int), long),
            decreases self.tokens.len() - i,
        {
            let ghost prev = out@;
            assert(self.tokens@.subrange(0, i + 1).drop_last() =~= self.tokens@.subrange(0, i as int));
            match self.tokens[i] {
                Token::Opt(o) => {
                    if o.long == long {
                        let k = trimmed(&self.raw, o.key.start, o.key.end);
                        let v = text_at(&self.raw, o.value.start, o.value.end);
                        out.push((k, v));
                        assert(pairs_view(out@) =~= pairs_view(prev).push((k@, v@)));
                    }
                },
                Token::Arg(_) => {},
            }
            i = i + 1;
        }
        assert(self.tokens@.subrange(0, i as int) =~= self.tokens@);
        out
    }

    /// The short options (`-k`), in order.
    pub fn get_options(&self) -> (r: Vec<(String, String)>)
        requires
            self.wf(),
        ensures
            pairs_view(r@) == opts_of(self.text(), false),
    {
        self.get_options_of(false)
    }

    /// The long options (`--k`), in order.
    pub fn get_long_options(&self) -> (r: Vec<(String, String)>)
        requires
            self.wf(),
        ensures
            pairs_view(r@) == opts_of(self.text(), true),
    {
        self.get_options_of(true)
    }

    /// The characters of the line.
    pub fn chars(&self) -> (r: &Vec<char>)
        ensures
            r@ == self.text(),
    {
        &self.raw
    }

    /// The span of the name, if any.
    pub fn name(&self) -> (r: Option<Span>)
        ensures
            r == self.name_spec(),
    {
        self.name
    }

    /// The tokens after the name.
    pub fn tokens(&self) -> (r: &Vec<Token>)
        ensures
            r@ == self.tokens_spec(),
    {
        &self.tokens
    }

    /// Every span of a well-formed line lies within it.
    pub proof fn lemma_bounds(&self)
        requires
            self.wf(),
        ensures
            self.text().len() <= usize::MAX,
            self.name_spec() matches Some(sp) ==> sp.start <= sp.end <= self.text().len(),
            forall|k: int| 0 <= k < self.tokens_spec().len() ==> token_in_bounds(#[trigger] self.tokens_spec()[k], self.text().len() as int),
    {
        let s = self.raw@;
        assert(self.raw.len() == s.len());
        if name_span(s) is Some {
            lemma_token_end(s, name_start(s));
        }
        lemma_token_bounds(s, body_start(s));
    }

    /// Number of characters in the line.
    pub fn len(&self) -> (r: usize)
        ensures
            r == self.text().len(),
    {
        self.raw.len()
    }
}

/// Every span of `t` lies within a text of length `n`.
pub open spec fn token_in_bounds(t: Token, n: int) -> bool {
    match t {
        Token::Arg(sp) => sp.start <= sp.end <= n,
        Token::Opt(o) => o.start <= o.key.start <= o.key.end <= o.value.start <= o.value.end <= n,
    }
}

proof fn lemma_token_bounds(s: Seq<char>, p: int)
    requires
        0 <= p <= s.len(),
        s.len() <= usize::MAX,
    ensures
        forall|k: int| 0 <= k < tokens_from(s, p).len() ==> token_in_bounds(#[trigger] tokens_from(s, p)[k], s.len() as int),
    decreases s.len() - p,
{
    let q = blank_end(s, p);
    lemma_blank_end(s, p);
    if q < s.len() {
        let (t, e) = token_at(s, q);
        lemma_token_at(s, q);
        if e > p && e <= s.len() {
            lemma_token_bounds(s, e);
            lemma_token_at_bounds(s, q);
            let r = tokens_from(s, p);
            assert(r == seq![t] + tokens_from(s, e));
            assert forall|k: int| 0 <= k < r.len() implies token_in_bounds(#[trigger] r[k], s.len() as int) by {
                if k > 0 {
                    assert(r[k] == tokens_from(s, e)[k - 1]);
                }
            }
        }
    }
}

proof fn lemma_token_at_bounds(s: Seq<char>, q: int)
    requires
        0 <= q < s.len(),
        !is_blank(s[q]),
        s.len() <= usize::MAX,
    ensures
        token_in_bounds(token_at(s, q).0, s.len() as int),
{
    lemma_token_end(s, q);
    if s[q] == '-' && option_at(s, q) is Some {
        let long = q + 1 < s.len() && s[q + 1] == '-';
        let ks = if long { q + 2 } else { q + 1 };
        lemma_key_end(s, ks);
        let ke = key_end(s, ks);
        lemma_eq_end(s, ke);
        lemma_blank_end(s, ke);
        let vs = if ke < s.len() && s[ke] == '=' { eq_end(s, ke) } else { blank_end(s, ke) };
        lemma_key_end(s, vs);
        lemma_value_end(s, vs);
        if vs < s.len() {
            lemma_quote_end(s, vs + 1);
        }
    }
}

} // verus!
