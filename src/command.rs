//! The structured command built from a tokenized line, and the decisions on builtins.

use vstd::prelude::*;
use crate::format::{Format, is_digit_char, name_of, args_of, opts_of, strings_view, pairs_view};
use crate::text::chars_of;

verus! {

/// A parsed command line: name, positional arguments, short and long options.
#[derive(Clone, Debug)]
pub struct Command {
    pub name: String,
    pub args: Vec<String>,
    pub options: Vec<(String, String)>,
    pub long_options: Vec<(String, String)>,
}

impl Command {
    /// The command that the text `s` holds.
    pub open spec fn holds(&self, s: Seq<char>) -> bool {
        &&& self.name@ == name_of(s)
        &&& strings_view(self.args@) == args_of(s)
        &&& pairs_view(self.options@) == opts_of(s, false)
        &&& pairs_view(self.long_options@) == opts_of(s, true)
    }

    /// The command of a blank line: no name, nothing else.
    pub open spec fn is_empty_command(&self) -> bool {
        &&& self.name@.len() == 0
        &&& self.args@.len() == 0
        &&& self.options@.len() == 0
        &&& self.long_options@.len() == 0
    }

    /// An empty command.
    pub fn empty() -> (r: Command)
        ensures
            r.is_empty_command(),
    {
        Command { name: String::new(), args: Vec::new(), options: Vec::new(), long_options: Vec::new() }
    }

    /// Builds the command from the spans of a tokenized line.
    pub fn from(format: &Format) -> (r: Command)
        requires
            format.wf(),
        ensures
            r.holds(format.text()),
    {
        Command {
            name: format.get_name(),
            args: format.get_args(),
            options: format.get_options(),
            long_options: format.get_long_options(),
        }
    }
}

impl Format {
    /// The command that this line holds.
    pub fn to_command(&self) -> (r: Command)
        requires
            self.wf(),
        ensures
            r.holds(self.text()),
    {
        Command::from(self)
    }
}

/// Tokenizes `line` and builds its command.
pub fn parse_command(line: &str) -> (r: Command)
    ensures
        r.holds(line@),
{
    Format::from(line).to_command()
}

pub open spec fn all_digits(d: Seq<char>) -> bool {
    forall|i: int| 0 <= i < d.len() ==> is_digit_char(#[trigger] d[i])
}

/// The value of a run of decimal digits.
pub open spec fn digits_value(d: Seq<char>) -> int
    decreases d.len(),
{
    if d.len() == 0 {
        0
    } else {
        digits_value(d.drop_last()) * 10 + (d.last() as int - '0' as int)
    }
}

/// The digits of `x` after an optional sign.
pub open spec fn unsigned_part(x: Seq<char>) -> Seq<char> {
    if x.len() > 0 && (x[0] == '-' || x[0] == '+') { x.drop_first() } else { x }
}

/// The value of `x` as a decimal integer with an optional sign.
pub open spec fn signed_value(x: Seq<char>) -> int {
    if x.len() > 0 && x[0] == '-' {
        -digits_value(unsigned_part(x))
    } else {
        digits_value(unsigned_part(x))
    }
}

/// `x` reads as a decimal integer that fits in an `i32`.
pub open spec fn is_i32_text(x: Seq<char>) -> bool {
    let d = unsigned_part(x);
    &&& d.len() > 0
    &&& all_digits(d)
    &&& i32::MIN <= signed_value(x) <= i32::MAX
}

proof fn lemma_digits_value_nonneg(d: Seq<char>)
    requires
        all_digits(d),
    ensures
        digits_value(d) >= 0,
    decreases d.len(),
{
    if d.len() > 0 {
        lemma_digits_value_nonneg(d.drop_last());
    }
}

proof fn lemma_digits_value_grows(d: Seq<char>, k: int)
    requires
        all_digits(d),
        0 <= k <= d.len(),
    ensures
        digits_value(d.subrange(0, k)) <= digits_value(d),
    decreases d.len() - k,
{
    if k < d.len() {
        lemma_digits_value_grows(d, k + 1);
        let p = d.subrange(0, k + 1);
        assert(p.drop_last() =~= d.subrange(0, k));
        assert(all_digits(d.subrange(0, k)));
        lemma_digits_value_nonneg(d.subrange(0, k));
    } else {
        assert(d.subrange(0, k) =~= d);
    }
}

/// Reads `x` as a decimal integer with an optional sign, if it fits in an `i32`.
pub fn parse_i32(x: &str) -> (r: Option<i32>)
    ensures
        r is Some <==> is_i32_text(x@),
        r matches Some(v) ==> v as int == signed_value(x@),
{
    let cs = chars_of(x);
    let n = cs.len();
    let neg = n > 0 && cs[0] == '-';
    let start: usize = if n > 0 && (cs[0] == '-' || cs[0] == '+') { 1 } else { 0 };
    let ghost d = unsigned_part(x@);
    assert(d =~= cs@.subrange(start as int, n as int));
    if start >= n {
        return None;
    }
    let mut acc: i64 = 0;
    let mut i = start;
    while i < n
        invariant
            start <= i <= n,
            n == cs@.len(),
            d == cs@.subrange(start as int, n as int),
            d == unsigned_part(x@),
            cs@ == x@,
            neg == (x@.len() > 0 && x@[0] == '-'),
            all_digits(d.subrange(0, i - start)),
            acc as int == digits_value(d.subrange(0, i - start)),
            0 <= acc <= 2147483648,
        decreases n - i,
    {
        let c = cs[i];
        if !('0' <= c && c <= '9') {
            assert(d[i - start] == c);
            assert(!is_digit_char(d[i - start]));
            assert(!all_digits(d));
            assert(d == unsigned_part(x@));
            assert(!is_i32_text(x@));
            return None;
        }
        let ghost p = d.subrange(0, i - start + 1);
        assert(p.drop_last() =~= d.subrange(0, i - start));
        assert(p.last() == c);
        acc = acc * 10 + (c as u32 - '0' as u32) as i64;
        i = i + 1;
        assert(all_digits(d.subrange(0, i - start))) by {
            assert(d.subrange(0, i - start) =~= p);
        }
        assert(acc as int == digits_value(p));
        if acc > 2147483648 {
            proof {
                assert(d.subrange(0, i - start) =~= p);
                if all_digits(d) {
                    lemma_digits_value_grows(d, i - start);
                }
            }
            return None;
        }
    }
    assert(d.subrange(0, i - start) =~= d);
    if neg {
        Some((-acc) as i32)
    } else if acc <= 2147483647 {
        Some(acc as i32)
    } else {
        None
    }
}

/// What the `exit` builtin ends with: the code, or the argument that is no code.
pub open spec fn exit_code_of(args: Seq<Seq<char>>) -> Result<int, Seq<char>> {
    if args.len() == 0 {
        Ok(0)
    } else if is_i32_text(args[0]) {
        Ok(signed_value(args[0]))
    } else {
        Err(args[0])
    }
}

/// The exit code that `exit` asks for: its first argument, or 0 without one;
/// `Err` holds an argument that is no `i32`.
pub fn exit_code(command: &Command) -> (r: Result<i32, String>)
    ensures
        match (r, exit_code_of(strings_view(command.args@))) {
            (Ok(v), Ok(w)) => v as int == w,
            (Err(e), Err(f)) => e@ == f,
            _ => false,
        },
{
    if command.args.len() == 0 {
        return Ok(0);
    }
    let a = &command.args[0];
    assert(strings_view(command.args@)[0] == a@);
    match parse_i32(a.as_str()) {
        Some(v) => Ok(v),
        None => Err(a.clone()),
    }
}

/// What the shell does with a submitted command.
#[derive(Clone, Debug)]
pub enum Dispatch {
    /// A blank line: nothing to do.
    Nothing,
    /// `exit` with a valid code: stop with that code.
    Exit(i32),
    /// `exit` with an argument that is no code: report it and go on.
    InvalidExitCode(String),
    /// `cd`, with the target directory if one was given.
    ChangeDir(Option<String>),
    /// Anything else: run it as an outside program.
    External,
}

/// Decides what to do with `command`.
pub fn process_command(command: &Command) -> (r: Dispatch)
    ensures
        command.name@.len() == 0 <==> r is Nothing,
        command.name@ == "exit"@ ==> match (r, exit_code_of(strings_view(command.args@))) {
            (Dispatch::Exit(v), Ok(w)) => v as int == w,
            (Dispatch::InvalidExitCode(e), Err(f)) => e@ == f,
            _ => false,
        },
        command.name@ == "cd"@ ==> match r {
            Dispatch::ChangeDir(t) => match t {
                Some(p) => command.args@.len() > 0 && p@ == command.args@[0]@,
                None => command.args@.len() == 0,
            },
            _ => false,
        },
        command.name@.len() > 0 && command.name@ != "exit"@ && command.name@ != "cd"@ ==> r is External,
{
    let name = chars_of(command.name.as_str());
    let exit_word = chars_of("exit");
    let cd_word = chars_of("cd");
    proof {
        reveal_strlit("exit");
        reveal_strlit("cd");
    }
    if name.len() == 0 {
        Dispatch::Nothing
    } else if same_chars(&name, &exit_word) {
        match exit_code(command) {
            Ok(v) => Dispatch::Exit(v),
            Err(e) => Dispatch::InvalidExitCode(e),
        }
    } else if same_chars(&name, &cd_word) {
        if command.args.len() > 0 {
            Dispatch::ChangeDir(Some(command.args[0].clone()))
        } else {
            Dispatch::ChangeDir(None)
        }
    } else {
        Dispatch::External
    }
}

/// Whether two character vectors are equal.
pub(crate) fn same_chars(a: &Vec<char>, b: &Vec<char>) -> (r: bool)
    ensures
        r == (a@ == b@),
{
    if a.len() != b.len() {
        return false;
    }
    let mut i: usize = 0;
    while i < a.len()
        invariant
            a@.len() == b@.len(),
            i <= a@.len(),
            forall|k: int| 0 <= k < i ==> a@[k] == b@[k],
        decreases a.len() - i,
    {
        if a[i] != b[i] {
            return false;
        }
        i = i + 1;
    }
    assert(a@ =~= b@);
    true
}

/// The `ls` builtin: listing is left to the outside `ls` program, so it does nothing here.
pub fn ls(object: Command) {
}

} // verus!
