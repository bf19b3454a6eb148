//! Command line parsing with the behaviour of the tool's argparse setup:
//! abbreviated long options, `-fq` style bundling, `--`, and argparse's
//! error messages.

use vstd::prelude::*;
use crate::pyfmt::{str_repr, str_repr_spec};
use crate::text::{chars_of, push_chars, string_of};

verus! {

/// The program name used in messages.
pub const PROG: &'static str = "pimgext";

/// The usage line printed before an error message.
pub const USAGE: &'static str = "usage: pimgext [-h] [-o DIR] [--no-composite] [-f] [-q] INPUT [INPUT ...]";

/// The text printed for `-h` / `--help`.
pub const HELP: &'static str = "usage: pimgext [-h] [-o DIR] [--no-composite] [-f] [-q] INPUT [INPUT ...]

Extract and composite .pimg files.

positional arguments:
  INPUT             .pimg file or directory

options:
  -h, --help        show this help message and exit
  -o, --output DIR  parent directory for output
  --no-composite    write raw/ only
  -f, --force       overwrite existing output
  -q, --quiet       suppress warnings
";

/// The parsed command line.
#[derive(Debug)]
pub struct Args {
    pub inputs: Vec<String>,
    pub output: Option<String>,
    pub no_composite: bool,
    pub force: bool,
    pub quiet: bool,
}

/// What an `Args` holds, with its texts as character sequences.
pub struct ArgsV {
    pub inputs: Seq<Seq<char>>,
    pub output: Option<Seq<char>>,
    pub no_composite: bool,
    pub force: bool,
    pub quiet: bool,
}

pub open spec fn strs_view(v: Seq<String>) -> Seq<Seq<char>> {
    v.map_values(|s: String| s@)
}

pub open spec fn opt_str_view(o: Option<String>) -> Option<Seq<char>> {
    match o {
        Some(s) => Some(s@),
        None => None,
    }
}

impl View for Args {
    type V = ArgsV;

    open spec fn view(&self) -> ArgsV {
        ArgsV {
            inputs: strs_view(self.inputs@),
            output: opt_str_view(self.output),
            no_composite: self.no_composite,
            force: self.force,
            quiet: self.quiet,
        }
    }
}

/// The namespace before any argument is seen.
pub open spec fn args_default() -> ArgsV {
    ArgsV { inputs: seq![], output: None, no_composite: false, force: false, quiet: false }
}

impl Default for Args {
    fn default() -> (a: Args)
        ensures
            a@ == args_default(),
    {
        let a = Args { inputs: Vec::new(), output: None, no_composite: false, force: false, quiet: false };
        assert(strs_view(a.inputs@) =~= seq![]);
        a
    }
}

/// The action an option string stands for.
#[derive(Clone, Copy, PartialEq, Eq, Structural, Debug)]
pub enum Act {
    Help,
    Output,
    NoComposite,
    Force,
    Quiet,
}

/// How many values an action takes.
pub open spec fn nargs_spec(a: Act) -> nat {
    if a == Act::Output {
        1
    } else {
        0
    }
}

/// How an action is named in error messages.
pub open spec fn act_name(a: Act) -> Seq<char> {
    match a {
        Act::Help => "-h/--help"@,
        Act::Output => "-o/--output"@,
        Act::NoComposite => "--no-composite"@,
        Act::Force => "-f/--force"@,
        Act::Quiet => "-q/--quiet"@,
    }
}

impl Act {
    pub fn nargs(self) -> (n: usize)
        ensures
            n == nargs_spec(self),
    {
        if self == Act::Output {
            1
        } else {
            0
        }
    }

    pub fn name(self) -> (s: &'static str)
        ensures
            s@ == act_name(self),
    {
        match self {
            Act::Help => "-h/--help",
            Act::Output => "-o/--output",
            Act::NoComposite => "--no-composite",
            Act::Force => "-f/--force",
            Act::Quiet => "-q/--quiet",
        }
    }
}

/// The option strings and their actions, in the order they were registered.
pub open spec fn options_tbl() -> Seq<(Seq<char>, Act)> {
    seq![
        (seq!['-', 'h'], Act::Help),
        (seq!['-', '-', 'h', 'e', 'l', 'p'], Act::Help),
        (seq!['-', 'o'], Act::Output),
        (seq!['-', '-', 'o', 'u', 't', 'p', 'u', 't'], Act::Output),
        (seq!['-', '-', 'n', 'o', '-', 'c', 'o', 'm', 'p', 'o', 's', 'i', 't', 'e'], Act::NoComposite),
        (seq!['-', 'f'], Act::Force),
        (seq!['-', '-', 'f', 'o', 'r', 'c', 'e'], Act::Force),
        (seq!['-', 'q'], Act::Quiet),
        (seq!['-', '-', 'q', 'u', 'i', 'e', 't'], Act::Quiet),
    ]
}

/// Entry `i` of the option table.
fn opt_entry(i: usize) -> (r: (Vec<char>, Act))
    requires
        i < 9,
    ensures
        r.0@ == options_tbl()[i as int].0,
        r.1 == options_tbl()[i as int].1,
{
    let (s, a) = match i {
        0 => ("-h", Act::Help),
        1 => ("--help", Act::Help),
        2 => ("-o", Act::Output),
        3 => ("--output", Act::Output),
        4 => ("--no-composite", Act::NoComposite),
        5 => ("-f", Act::Force),
        6 => ("--force", Act::Force),
        7 => ("-q", Act::Quiet),
        _ => ("--quiet", Act::Quiet),
    };
    proof {
        reveal_strlit("-h");
        reveal_strlit("--help");
        reveal_strlit("-o");
        reveal_strlit("--output");
        reveal_strlit("--no-composite");
        reveal_strlit("-f");
        reveal_strlit("--force");
        reveal_strlit("-q");
        reveal_strlit("--quiet");
    }
    (chars_of(s), a)
}

/// A copy of `s`.
pub fn to_chars(s: &[char]) -> (v: Vec<char>)
    ensures
        v@ == s@,
{
    let mut v: Vec<char> = Vec::new();
    let mut i: usize = 0;
    while i < s.len()
        invariant
            i <= s@.len(),
            v@ == s@.take(i as int),
        decreases s@.len() - i,
    {
        v.push(s[i]);
        i += 1;
    }
    assert(s@.take(s@.len() as int) =~= s@);
    v
}

/// Whether two character slices are equal.
fn chars_eq(a: &[char], b: &[char]) -> (r: bool)
    ensures
        r == (a@ == b@),
{
    if a.len() != b.len() {
        return false;
    }
    let mut i: usize = 0;
    while i < a.len()
        invariant
            i <= a@.len(),
            a@.len() == b@.len(),
            forall|j: int| 0 <= j < i ==> a@[j] == b@[j],
        decreases a@.len() - i,
    {
        if a[i] != b[i] {
            return false;
        }
        i += 1;
    }
    assert(a@ =~= b@);
    true
}

/// Whether `s` starts with `p`.
pub open spec fn starts_with(s: Seq<char>, p: Seq<char>) -> bool {
    p.len() <= s.len() && s.take(p.len() as int) == p
}

fn chars_starts_with(s: &[char], p: &[char]) -> (r: bool)
    ensures
        r == starts_with(s@, p@),
{
    if p.len() > s.len() {
        return false;
    }
    let mut i: usize = 0;
    while i < p.len()
        invariant
            i <= p@.len(),
            p@.len() <= s@.len(),
            forall|j: int| 0 <= j < i ==> s@[j] == p@[j],
        decreases p@.len() - i,
    {
        if s[i] != p[i] {
            assert(s@.take(p@.len() as int)[i as int] == s@[i as int]);
            return false;
        }
        i += 1;
    }
    assert(s@.take(p@.len() as int) =~= p@);
    true
}

/// The action of the first option string in the table equal to `s`, from
/// entry `i` on.
pub open spec fn lookup_from(s: Seq<char>, i: int) -> Option<Act>
    decreases 9 - i,
{
    if i < 0 || i >= 9 {
        None
    } else if options_tbl()[i].0 == s {
        Some(options_tbl()[i].1)
    } else {
        lookup_from(s, i + 1)
    }
}

/// The action registered under the option string `s`.
pub open spec fn lookup_spec(s: Seq<char>) -> Option<Act> {
    lookup_from(s, 0)
}

fn lookup(s: &[char]) -> (r: Option<Act>)
    ensures
        r == lookup_spec(s@),
{
    let mut i: usize = 0;
    while i < 9
        invariant
            i <= 9,
            lookup_spec(s@) == lookup_from(s@, i as int),
        decreases 9 - i,
    {
        let (o, a) = opt_entry(i);
        if chars_eq(o.as_slice(), s) {
            return Some(a);
        }
        i += 1;
    }
    None
}

/// The position of the first `c` in `s` from `i` on, or -1.
pub open spec fn first_index_from(s: Seq<char>, c: char, i: int) -> int
    decreases s.len() - i,
{
    if i < 0 || i >= s.len() {
        -1
    } else if s[i] == c {
        i
    } else {
        first_index_from(s, c, i + 1)
    }
}

pub open spec fn first_index(s: Seq<char>, c: char) -> int {
    first_index_from(s, c, 0)
}

proof fn lemma_first_index_from(s: Seq<char>, c: char, i: int)
    requires
        0 <= i <= s.len(),
    ensures
        first_index_from(s, c, i) == -1 || (i <= first_index_from(s, c, i) < s.len() && s[first_index_from(
            s,
            c,
            i,
        )] == c),
    decreases s.len() - i,
{
    if i < s.len() && s[i] != c {
        lemma_first_index_from(s, c, i + 1);
    }
}

/// str.partition('='): what comes before the first '=', the '=' itself, and
/// what follows it.
pub open spec fn partition_spec(s: Seq<char>) -> (Seq<char>, Option<Seq<char>>, Option<Seq<char>>) {
    let i = first_index(s, '=');
    if i < 0 {
        (s, None, None)
    } else {
        (s.take(i), Some(seq!['=']), Some(s.skip(i + 1)))
    }
}

fn partition(s: &[char]) -> (r: (Vec<char>, Option<Vec<char>>, Option<Vec<char>>))
    ensures
        r.0@ == partition_spec(s@).0,
        opt_chars_view(r.1) == partition_spec(s@).1,
        opt_chars_view(r.2) == partition_spec(s@).2,
{
    let mut i: usize = 0;
    while i < s.len()
        invariant
            i <= s@.len(),
            first_index(s@, '=') == first_index_from(s@, '=', i as int),
        decreases s@.len() - i,
    {
        if s[i] == '=' {
            let mut eq: Vec<char> = Vec::new();
            eq.push('=');
            return (to_chars(&s[0..i]), Some(eq), Some(to_chars(&s[i + 1..s.len()])));
        }
        i += 1;
    }
    (to_chars(s), None, None)
}

pub open spec fn opt_chars_view(o: Option<Vec<char>>) -> Option<Seq<char>> {
    match o {
        Some(v) => Some(v@),
        None => None,
    }
}

fn copy_opt(o: &Option<Vec<char>>) -> (r: Option<Vec<char>>)
    ensures
        opt_chars_view(r) == opt_chars_view(*o),
{
    match o {
        Some(v) => Some(to_chars(v.as_slice())),
        None => None,
    }
}

/// An option string matched against an argument: (action, option_string,
/// sep, explicit_arg).
pub struct OptTuple {
    pub action: Option<Act>,
    pub option_string: Vec<char>,
    pub sep: Option<Vec<char>>,
    pub explicit_arg: Option<Vec<char>>,
}

pub struct OptV {
    pub action: Option<Act>,
    pub option_string: Seq<char>,
    pub sep: Option<Seq<char>>,
    pub explicit_arg: Option<Seq<char>>,
}

impl View for OptTuple {
    type V = OptV;

    open spec fn view(&self) -> OptV {
        OptV {
            action: self.action,
            option_string: self.option_string@,
            sep: opt_chars_view(self.sep),
            explicit_arg: opt_chars_view(self.explicit_arg),
        }
    }
}

pub open spec fn tuples_view(v: Seq<OptTuple>) -> Seq<OptV> {
    v.map_values(|t: OptTuple| t@)
}

fn copy_tuple(t: &OptTuple) -> (r: OptTuple)
    ensures
        r@ == t@,
{
    OptTuple {
        action: t.action,
        option_string: to_chars(t.option_string.as_slice()),
        sep: copy_opt(&t.sep),
        explicit_arg: copy_opt(&t.explicit_arg),
    }
}

/// The long-option matches: every option string, from entry `i` on, that
/// starts with `prefix`.
pub open spec fn long_tuples(prefix: Seq<char>, sep: Option<Seq<char>>, ex: Option<Seq<char>>, i: int) -> Seq<
    OptV,
>
    decreases 9 - i,
{
    if i < 0 || i >= 9 {
        seq![]
    } else {
        let (o, a) = options_tbl()[i];
        let rest = long_tuples(prefix, sep, ex, i + 1);
        if starts_with(o, prefix) {
            seq![OptV { action: Some(a), option_string: o, sep: sep, explicit_arg: ex }] + rest
        } else {
            rest
        }
    }
}

/// The short-option matches: an option string equal to the first two
/// characters of `arg` (with the rest as its argument), or one that starts
/// with `prefix`, from entry `i` on.
pub open spec fn short_tuples(
    arg: Seq<char>,
    prefix: Seq<char>,
    sep: Option<Seq<char>>,
    ex: Option<Seq<char>>,
    i: int,
) -> Seq<OptV>
    decreases 9 - i,
{
    if i < 0 || i >= 9 {
        seq![]
    } else {
        let (o, a) = options_tbl()[i];
        let rest = short_tuples(arg, prefix, sep, ex, i + 1);
        if o == arg.take(2) {
            seq![
                OptV {
                    action: Some(a),
                    option_string: o,
                    sep: Some(seq![]),
                    explicit_arg: Some(arg.skip(2)),
                },
            ] + rest
        } else if starts_with(o, prefix) {
            seq![OptV { action: Some(a), option_string: o, sep: sep, explicit_arg: ex }] + rest
        } else {
            rest
        }
    }
}

/// parser._get_option_tuples(arg)
pub open spec fn option_tuples_spec(arg: Seq<char>) -> Seq<OptV> {
    let (prefix, sep, ex) = partition_spec(arg);
    if arg[1] == '-' {
        long_tuples(prefix, sep, ex, 0)
    } else {
        short_tuples(arg, prefix, sep, ex, 0)
    }
}

fn get_option_tuples(arg: &[char]) -> (r: Vec<OptTuple>)
    requires
        arg@.len() >= 2,
    ensures
        tuples_view(r@) == option_tuples_spec(arg@),
{
    let (prefix, sep, explicit) = partition(arg);
    let mut result: Vec<OptTuple> = Vec::new();
    let long = arg[1] == '-';
    let short_prefix = to_chars(&arg[0..2]);
    let short_explicit = to_chars(&arg[2..arg.len()]);
    let ghost total = if long {
        long_tuples(prefix@, opt_chars_view(sep), opt_chars_view(explicit), 0)
    } else {
        short_tuples(arg@, prefix@, opt_chars_view(sep), opt_chars_view(explicit), 0)
    };
    let mut i: usize = 0;
    while i < 9
        invariant
            i <= 9,
            total == tuples_view(result@) + if long {
                long_tuples(prefix@, opt_chars_view(sep), opt_chars_view(explicit), i as int)
            } else {
                short_tuples(arg@, prefix@, opt_chars_view(sep), opt_chars_view(explicit), i as int)
            },
            short_prefix@ == arg@.take(2),
            short_explicit@ == arg@.skip(2),
        decreases 9 - i,
    {
        let (o, a) = opt_entry(i);
        let ghost before = tuples_view(result@);
        if long {
            if chars_starts_with(o.as_slice(), prefix.as_slice()) {
                result.push(OptTuple { action: Some(a), option_string: o, sep: copy_opt(&sep), explicit_arg: copy_opt(&explicit) });
            }
        } else if chars_eq(o.as_slice(), short_prefix.as_slice()) {
            let mut empty: Vec<char> = Vec::new();
            result.push(OptTuple { action: Some(a), option_string: o, sep: Some(empty), explicit_arg: Some(to_chars(short_explicit.as_slice())) });
        } else if chars_starts_with(o.as_slice(), prefix.as_slice()) {
            result.push(OptTuple { action: Some(a), option_string: o, sep: copy_opt(&sep), explicit_arg: copy_opt(&explicit) });
        }
        proof {
            assert(tuples_view(result@) =~= before + (tuples_view(result@).skip(before.len() as int)));
            if result@.len() > before.len() {
                assert(tuples_view(result@) =~= before + seq![result@.last()@]);
            } else {
                assert(tuples_view(result@) =~= before);
            }
        }
        i += 1;
    }
    assert(tuples_view(result@) + Seq::<OptV>::empty() =~= tuples_view(result@));
    result
}

/// What `char::is_numeric` gives for `c`: whether it is in one of
/// Unicode's number categories (Nd, Nl, No).
pub uninterp spec fn is_numeric(c: char) -> bool;

/// `char::is_numeric`. Claimed: the result is `is_numeric(c)`, and for an
/// ASCII character it is true exactly for the digits '0' to '9' (the only
/// ASCII characters in a Unicode number category).
#[verifier::external_body]
fn char_is_numeric(c: char) -> (b: bool)
    ensures
        b == is_numeric(c),
        (c as u32) < 128 ==> (b <==> ('0' <= c && c <= '9')),
{
    c.is_numeric()
}

/// re.match(r'-\.?\d', s)
pub open spec fn negative_number(s: Seq<char>) -> bool {
    &&& s.len() >= 2
    &&& s[0] == '-'
    &&& if s[1] == '.' {
        s.len() >= 3 && is_numeric(s[2])
    } else {
        is_numeric(s[1])
    }
}

fn looks_negative_number(s: &[char]) -> (b: bool)
    ensures
        b == negative_number(s@),
{
    if s.len() < 2 || s[0] != '-' {
        return false;
    }
    if s[1] == '.' {
        s.len() >= 3 && char_is_numeric(s[2])
    } else {
        char_is_numeric(s[1])
    }
}

fn contains_char(s: &[char], c: char) -> (b: bool)
    ensures
        b == s@.contains(c),
{
    let mut i: usize = 0;
    while i < s.len()
        invariant
            i <= s@.len(),
            forall|j: int| 0 <= j < i ==> s@[j] != c,
        decreases s@.len() - i,
    {
        if s[i] == c {
            assert(s@[i as int] == c);
            return true;
        }
        i += 1;
    }
    false
}

/// parser._parse_optional(arg): None for a positional argument, else the
/// option strings it may stand for.
pub open spec fn parse_optional_spec(s: Seq<char>) -> Option<Seq<OptV>> {
    if s.len() == 0 || s[0] != '-' {
        None
    } else if lookup_spec(s) is Some {
        Some(seq![OptV { action: lookup_spec(s), option_string: s, sep: None, explicit_arg: None }])
    } else if s.len() == 1 {
        None
    } else {
        let (os, sep, ex) = partition_spec(s);
        if sep is Some && lookup_spec(os) is Some {
            Some(seq![OptV { action: lookup_spec(os), option_string: os, sep: sep, explicit_arg: ex }])
        } else if option_tuples_spec(s).len() > 0 {
            Some(option_tuples_spec(s))
        } else if negative_number(s) || s.contains(' ') {
            None
        } else {
            Some(seq![OptV { action: None, option_string: s, sep: None, explicit_arg: None }])
        }
    }
}

pub open spec fn opt_tuples_view(o: Option<Vec<OptTuple>>) -> Option<Seq<OptV>> {
    match o {
        Some(v) => Some(tuples_view(v@)),
        None => None,
    }
}

fn single(t: OptTuple) -> (r: Vec<OptTuple>)
    ensures
        tuples_view(r@) == seq![t@],
{
    let mut v: Vec<OptTuple> = Vec::new();
    v.push(t);
    assert(tuples_view(v@) =~= seq![t@]);
    v
}

fn parse_optional(arg: &[char]) -> (r: Option<Vec<OptTuple>>)
    ensures
        opt_tuples_view(r) == parse_optional_spec(arg@),
{
    if arg.len() == 0 || arg[0] != '-' {
        return None;
    }
    match lookup(arg) {
        Some(a) => {
            return Some(single(OptTuple { action: Some(a), option_string: to_chars(arg), sep: None, explicit_arg: None }));
        },
        None => {},
    }
    if arg.len() == 1 {
        return None;
    }
    let (os, sep, explicit) = partition(arg);
    if sep.is_some() {
        match lookup(os.as_slice()) {
            Some(a) => {
                return Some(single(OptTuple { action: Some(a), option_string: os, sep, explicit_arg: explicit }));
            },
            None => {},
        }
    }
    let tuples = get_option_tuples(arg);
    if tuples.len() > 0 {
        return Some(tuples);
    }
    if looks_negative_number(arg) || contains_char(arg, ' ') {
        return None;
    }
    Some(single(OptTuple { action: None, option_string: to_chars(arg), sep: None, explicit_arg: None }))
}

/// Why parsing stopped early: help was asked for, or an error message.
pub enum Stop {
    Help,
    Error(String),
}

pub enum StopV {
    Help,
    Error(Seq<char>),
}

impl View for Stop {
    type V = StopV;

    open spec fn view(&self) -> StopV {
        match self {
            Stop::Help => StopV::Help,
            Stop::Error(m) => StopV::Error(m@),
        }
    }
}

/// The parser's changing state: the namespace, whether INPUT is still to
/// be matched, and the unrecognized arguments.
pub struct PSt {
    pub ns: ArgsV,
    pub pending: bool,
    pub extras: Seq<Seq<char>>,
}

pub open spec fn vecs_view(s: Seq<Vec<char>>) -> Seq<Seq<char>> {
    s.map_values(|v: Vec<char>| v@)
}

/// What taking an action does to the namespace.
pub open spec fn take_action_spec(st: PSt, act: Act, values: Seq<Seq<char>>) -> Result<PSt, StopV> {
    let ns = st.ns;
    match act {
        Act::Help => Err(StopV::Help),
        Act::Output => Ok(
            PSt {
                ns: ArgsV {
                    inputs: ns.inputs,
                    output: Some(values[0]),
                    no_composite: ns.no_composite,
                    force: ns.force,
                    quiet: ns.quiet,
                },
                pending: st.pending,
                extras: st.extras,
            },
        ),
        Act::NoComposite => Ok(
            PSt {
                ns: ArgsV {
                    inputs: ns.inputs,
                    output: ns.output,
                    no_composite: true,
                    force: ns.force,
                    quiet: ns.quiet,
                },
                pending: st.pending,
                extras: st.extras,
            },
        ),
        Act::Force => Ok(
            PSt {
                ns: ArgsV {
                    inputs: ns.inputs,
                    output: ns.output,
                    no_composite: ns.no_composite,
                    force: true,
                    quiet: ns.quiet,
                },
                pending: st.pending,
                extras: st.extras,
            },
        ),
        Act::Quiet => Ok(
            PSt {
                ns: ArgsV {
                    inputs: ns.inputs,
                    output: ns.output,
                    no_composite: ns.no_composite,
                    force: ns.force,
                    quiet: true,
                },
                pending: st.pending,
                extras: st.extras,
            },
        ),
    }
}

/// _match_argument for an option: how many values it takes from the
/// remaining pattern.
pub open spec fn match_argument_spec(act: Act, pat: Seq<char>) -> Result<nat, StopV> {
    if nargs_spec(act) == 0 {
        Ok(0)
    } else if pat.len() > 0 && pat[0] == 'A' {
        Ok(1)
    } else {
        Err(StopV::Error("argument "@ + act_name(act) + ": expected one argument"@))
    }
}

pub open spec fn ignored_msg(act: Act, ex: Seq<char>) -> Seq<char> {
    "argument "@ + act_name(act) + ": ignored explicit argument "@ + str_repr_spec(ex)
}

/// The parts joined with `sep` between them.
pub open spec fn join_with(parts: Seq<Seq<char>>, sep: Seq<char>) -> Seq<char>
    decreases parts.len(),
{
    if parts.len() == 0 {
        seq![]
    } else if parts.len() == 1 {
        parts[0]
    } else {
        join_with(parts.drop_last(), sep) + sep + parts.last()
    }
}

pub open spec fn ex_measure(ex: Option<Seq<char>>) -> nat {
    match ex {
        Some(e) => e.len() + 1,
        None => 0,
    }
}

/// The loop of consume_optional over one option string: the actions it
/// gathered with their values, the argument it gave up on (if any), and
/// where the next argument starts.
pub open spec fn explicit_loop_spec(
    argv: Seq<Seq<char>>,
    pattern: Seq<char>,
    start: int,
    act: Act,
    os: Seq<char>,
    sep: Option<Seq<char>>,
    ex: Option<Seq<char>>,
    acc: Seq<(Act, Seq<Seq<char>>)>,
) -> Result<(Seq<(Act, Seq<Seq<char>>)>, Option<Seq<char>>, int), StopV>
    decreases ex_measure(ex),
{
    match ex {
        Some(e) => {
            let arg_count = nargs_spec(act);
            if arg_count == 0 && os[1] != '-' && e.len() > 0 {
                let first = e[0];
                if (sep is Some && sep->0.len() > 0) || first == '-' {
                    Err(StopV::Error(ignored_msg(act, e)))
                } else {
                    let acc2 = acc.push((act, seq![]));
                    let os2 = seq!['-', first];
                    let rest = e.skip(1);
                    match lookup_spec(os2) {
                        Some(a) => {
                            if rest.len() == 0 {
                                explicit_loop_spec(argv, pattern, start, a, os2, None, None, acc2)
                            } else if rest[0] == '=' {
                                explicit_loop_spec(
                                    argv,
                                    pattern,
                                    start,
                                    a,
                                    os2,
                                    Some(seq!['=']),
                                    Some(rest.skip(1)),
                                    acc2,
                                )
                            } else {
                                explicit_loop_spec(argv, pattern, start, a, os2, Some(seq![]), Some(rest), acc2)
                            }
                        },
                        None => Ok((acc2, Some(seq!['-'] + e), start + 1)),
                    }
                }
            } else if arg_count == 1 {
                Ok((acc.push((act, seq![e])), None, start + 1))
            } else {
                Err(StopV::Error(ignored_msg(act, e)))
            }
        },
        None => {
            let s = start + 1;
            let from = if s < pattern.len() {
                s
            } else {
                pattern.len() as int
            };
            match match_argument_spec(act, pattern.skip(from)) {
                Err(e) => Err(e),
                Ok(n) => Ok((acc.push((act, argv.subrange(s, s + n))), None, s + n)),
            }
        },
    }
}

/// Taking the gathered actions in order.
pub open spec fn apply_actions(st: PSt, acts: Seq<(Act, Seq<Seq<char>>)>) -> Result<PSt, StopV>
    decreases acts.len(),
{
    if acts.len() == 0 {
        Ok(st)
    } else {
        match apply_actions(st, acts.drop_last()) {
            Err(e) => Err(e),
            Ok(s) => take_action_spec(s, acts.last().0, acts.last().1),
        }
    }
}

pub open spec fn with_extras(st: PSt, extras: Seq<Seq<char>>) -> PSt {
    PSt { ns: st.ns, pending: st.pending, extras: extras }
}

/// consume_optional(start): the new state and where the next argument starts.
pub open spec fn consume_optional_spec(
    argv: Seq<Seq<char>>,
    pattern: Seq<char>,
    options: Seq<Option<Seq<OptV>>>,
    st: PSt,
    start: int,
) -> Result<(PSt, int), StopV> {
    let ts = options[start]->0;
    if ts.len() > 1 {
        Err(
            StopV::Error(
                "ambiguous option: "@ + argv[start] + " could match "@ + join_with(
                    ts.map_values(|t: OptV| t.option_string),
                    ", "@,
                ),
            ),
        )
    } else {
        let t = ts[0];
        match t.action {
            None => Ok((with_extras(st, st.extras.push(argv[start])), start + 1)),
            Some(a) => match explicit_loop_spec(
                argv,
                pattern,
                start,
                a,
                t.option_string,
                t.sep,
                t.explicit_arg,
                seq![],
            ) {
                Err(e) => Err(e),
                Ok((acts, extra, stop)) => {
                    let st1 = match extra {
                        Some(x) => with_extras(st, st.extras.push(x)),
                        None => st,
                    };
                    match apply_actions(st1, acts) {
                        Err(e) => Err(e),
                        Ok(st2) => Ok((st2, stop)),
                    }
                },
            },
        }
    }
}

/// The first position from `i` on whose pattern letter is not `c`.
pub open spec fn skip_char(pat: Seq<char>, i: int, c: char) -> int
    decreases pat.len() - i,
{
    if i < 0 || i >= pat.len() || pat[i] != c {
        i
    } else {
        skip_char(pat, i + 1, c)
    }
}

/// The first position from `i` on whose pattern letter is neither 'A' nor '-'.
pub open spec fn skip_args(pat: Seq<char>, i: int) -> int
    decreases pat.len() - i,
{
    if i < 0 || i >= pat.len() || (pat[i] != 'A' && pat[i] != '-') {
        i
    } else {
        skip_args(pat, i + 1)
    }
}

/// `values` without its first "--", if it has one.
pub open spec fn remove_first_dd(values: Seq<Seq<char>>) -> Seq<Seq<char>>
    decreases values.len(),
{
    if values.len() == 0 {
        values
    } else if values[0] == seq!['-', '-'] {
        values.skip(1)
    } else {
        seq![values[0]] + remove_first_dd(values.skip(1))
    }
}

/// consume_positionals(start): INPUT matches '-*A[A-]*' of the pattern
/// from `start`, once.
pub open spec fn consume_positionals_spec(argv: Seq<Seq<char>>, pattern: Seq<char>, st: PSt, start: int) -> (
    PSt,
    int,
) {
    if !st.pending {
        (st, start)
    } else {
        let pat = pattern.skip(start);
        let i0 = skip_char(pat, 0, '-');
        if i0 >= pat.len() || pat[i0] != 'A' {
            (st, start)
        } else {
            let i = skip_args(pat, i0 + 1);
            let values0 = argv.subrange(start, start + i);
            let values = if pat.take(i).contains('-') {
                remove_first_dd(values0)
            } else {
                values0
            };
            (
                PSt {
                    ns: ArgsV {
                        inputs: values,
                        output: st.ns.output,
                        no_composite: st.ns.no_composite,
                        force: st.ns.force,
                        quiet: st.ns.quiet,
                    },
                    pending: false,
                    extras: st.extras,
                },
                start + i,
            )
        }
    }
}

pub open spec fn accs_view(acc: Seq<(Act, Vec<Vec<char>>)>) -> Seq<(Act, Seq<Seq<char>>)> {
    acc.map_values(|p: (Act, Vec<Vec<char>>)| (p.0, vecs_view(p.1@)))
}

/// Every gathered `-o` has its value.
pub open spec fn acts_ok(acc: Seq<(Act, Seq<Seq<char>>)>) -> bool {
    forall|k: int| 0 <= k < acc.len() ==> (acc[k].0 == Act::Output ==> acc[k].1.len() >= 1)
}

proof fn lemma_explicit_loop(
    argv: Seq<Seq<char>>,
    pattern: Seq<char>,
    start: int,
    act: Act,
    os: Seq<char>,
    sep: Option<Seq<char>>,
    ex: Option<Seq<char>>,
    acc: Seq<(Act, Seq<Seq<char>>)>,
)
    requires
        0 <= start < argv.len(),
        pattern.len() == argv.len(),
        acts_ok(acc),
    ensures
        match explicit_loop_spec(argv, pattern, start, act, os, sep, ex, acc) {
            Ok((a, _x, stop)) => acts_ok(a) && start < stop <= argv.len() && stop <= start + 2,
            Err(_) => true,
        },
    decreases ex_measure(ex),
{
    match ex {
        Some(e) => {
            if nargs_spec(act) == 0 && os[1] != '-' && e.len() > 0 {
                let first = e[0];
                let acc2 = acc.push((act, seq![]));
                assert(acts_ok(acc2)) by {
                    assert forall|k: int| 0 <= k < acc2.len() implies acc2[k].0 != Act::Output
                        || acc2[k].1.len() >= 1 by {
                        if k < acc.len() {
                            assert(acc2[k] == acc[k]);
                        }
                    }
                }
                let os2 = seq!['-', first];
                let rest = e.skip(1);
                match lookup_spec(os2) {
                    Some(a) => {
                        if rest.len() == 0 {
                            lemma_explicit_loop(argv, pattern, start, a, os2, None, None, acc2);
                        } else if rest[0] == '=' {
                            lemma_explicit_loop(argv, pattern, start, a, os2, Some(seq!['=']), Some(rest.skip(1)), acc2);
                        } else {
                            lemma_explicit_loop(argv, pattern, start, a, os2, Some(seq![]), Some(rest), acc2);
                        }
                    },
                    None => {},
                }
            } else if nargs_spec(act) == 1 {
                let acc2 = acc.push((act, seq![e]));
                assert forall|k: int| 0 <= k < acc2.len() implies acc2[k].0 != Act::Output || acc2[k].1.len()
                    >= 1 by {
                    if k < acc.len() {
                        assert(acc2[k] == acc[k]);
                    }
                }
            }
        },
        None => {
            let s = start + 1;
            let from = if s < pattern.len() {
                s
            } else {
                pattern.len() as int
            };
            match match_argument_spec(act, pattern.skip(from)) {
                Err(_) => {},
                Ok(n) => {
                    let acc2 = acc.push((act, argv.subrange(s, s + n)));
                    assert forall|k: int| 0 <= k < acc2.len() implies acc2[k].0 != Act::Output
                        || acc2[k].1.len() >= 1 by {
                        if k < acc.len() {
                            assert(acc2[k] == acc[k]);
                        }
                    }
                },
            }
        },
    }
}

/// Whether an option match can be consumed: it has an action wherever it
/// carries an explicit argument, and its option string then has two
/// characters at least.
pub open spec fn tuple_ok(t: OptV) -> bool {
    t.explicit_arg is Some ==> t.option_string.len() >= 2
}

pub open spec fn tuples_ok(ts: Seq<OptV>) -> bool {
    ts.len() >= 1 && forall|k: int| 0 <= k < ts.len() ==> tuple_ok(#[trigger] ts[k])
}

proof fn lemma_lookup_len(s: Seq<char>, i: int)
    requires
        lookup_from(s, i) is Some,
    ensures
        s.len() >= 2,
    decreases 9 - i,
{
    if 0 <= i < 9 && options_tbl()[i].0 != s {
        lemma_lookup_len(s, i + 1);
    }
}

proof fn lemma_tbl_len(i: int)
    requires
        0 <= i < 9,
    ensures
        options_tbl()[i].0.len() >= 2,
{
}

proof fn lemma_long_tuples(prefix: Seq<char>, sep: Option<Seq<char>>, ex: Option<Seq<char>>, i: int)
    ensures
        forall|k: int|
            0 <= k < long_tuples(prefix, sep, ex, i).len() ==> (#[trigger] long_tuples(prefix, sep, ex, i)[k]).option_string.len()
                >= 2,
    decreases 9 - i,
{
    if 0 <= i < 9 {
        lemma_long_tuples(prefix, sep, ex, i + 1);
        lemma_tbl_len(i);
        let rest = long_tuples(prefix, sep, ex, i + 1);
        let r = long_tuples(prefix, sep, ex, i);
        assert forall|k: int| 0 <= k < r.len() implies (#[trigger] r[k]).option_string.len() >= 2 by {
            if r.len() > rest.len() && k > 0 {
                assert(r[k] == rest[k - 1]);
            }
        }
    }
}

proof fn lemma_short_tuples(arg: Seq<char>, prefix: Seq<char>, sep: Option<Seq<char>>, ex: Option<Seq<char>>, i: int)
    ensures
        forall|k: int|
            0 <= k < short_tuples(arg, prefix, sep, ex, i).len() ==> (#[trigger] short_tuples(
                arg,
                prefix,
                sep,
                ex,
                i,
            )[k]).option_string.len() >= 2,
    decreases 9 - i,
{
    if 0 <= i < 9 {
        lemma_short_tuples(arg, prefix, sep, ex, i + 1);
        lemma_tbl_len(i);
        let rest = short_tuples(arg, prefix, sep, ex, i + 1);
        let r = short_tuples(arg, prefix, sep, ex, i);
        assert forall|k: int| 0 <= k < r.len() implies (#[trigger] r[k]).option_string.len() >= 2 by {
            if r.len() > rest.len() && k > 0 {
                assert(r[k] == rest[k - 1]);
            }
        }
    }
}

proof fn lemma_parse_optional_ok(s: Seq<char>)
    ensures
        parse_optional_spec(s) is Some ==> tuples_ok(parse_optional_spec(s)->0),
{
    if parse_optional_spec(s) is Some {
        if lookup_spec(s) is Some {
        } else {
            let (os, sep, ex) = partition_spec(s);
            if sep is Some && lookup_spec(os) is Some {
                lemma_lookup_len(os, 0);
            } else if option_tuples_spec(s).len() > 0 {
                if s[1] == '-' {
                    lemma_long_tuples(os, sep, ex, 0);
                } else {
                    lemma_short_tuples(s, os, sep, ex, 0);
                }
            }
        }
    }
}

/// The argument parser: the arguments, their pattern letters ('O' for an
/// option, 'A' for an argument, '-' for the first "--"), their option
/// matches, and the state that consuming them changes.
struct Parser {
    args: Vec<Vec<char>>,
    pattern: Vec<char>,
    options: Vec<Option<Vec<OptTuple>>>,
    ns: Args,
    inputs_pending: bool,
    extras: Vec<Vec<char>>,
}

pub open spec fn optvs_view(o: Seq<Option<Vec<OptTuple>>>) -> Seq<Option<Seq<OptV>>> {
    o.map_values(|x: Option<Vec<OptTuple>>| opt_tuples_view(x))
}

/// The pattern and option matches agree, and every option match can be
/// consumed.
pub open spec fn parser_input_ok(argv: Seq<Seq<char>>, pattern: Seq<char>, options: Seq<Option<Seq<OptV>>>) -> bool {
    &&& argv.len() == pattern.len()
    &&& argv.len() == options.len()
    &&& argv.len() < usize::MAX
    &&& forall|i: int| 0 <= i < argv.len() ==> (pattern[i] == 'O' <==> (#[trigger] options[i]) is Some)
    &&& forall|i: int| 0 <= i < argv.len() && (#[trigger] options[i]) is Some ==> tuples_ok(options[i]->0)
}

impl Parser {
    spec fn argv(&self) -> Seq<Seq<char>> {
        vecs_view(self.args@)
    }

    spec fn optv(&self) -> Seq<Option<Seq<OptV>>> {
        optvs_view(self.options@)
    }

    spec fn st(&self) -> PSt {
        PSt { ns: self.ns@, pending: self.inputs_pending, extras: vecs_view(self.extras@) }
    }

    spec fn wf(&self) -> bool {
        parser_input_ok(self.argv(), self.pattern@, self.optv())
    }

    spec fn same_input(&self, other: &Parser) -> bool {
        &&& self.args@ == other.args@
        &&& self.pattern@ == other.pattern@
        &&& self.options@ == other.options@
    }

    fn take_action(&mut self, act: Act, values: &Vec<Vec<char>>) -> (r: Result<(), Stop>)
        requires
            act == Act::Output ==> values@.len() >= 1,
        ensures
            final(self).same_input(old(self)),
            match take_action_spec(old(self).st(), act, vecs_view(values@)) {
                Err(e) => r matches Err(x) && x@ == e,
                Ok(st) => r is Ok && final(self).st() == st,
            },
    {
        match act {
            Act::Help => {
                return Err(Stop::Help);
            },
            Act::Output => {
                self.ns.output = Some(string_of(values[0].as_slice()));
            },
            Act::NoComposite => {
                self.ns.no_composite = true;
            },
            Act::Force => {
                self.ns.force = true;
            },
            Act::Quiet => {
                self.ns.quiet = true;
            },
        }
        Ok(())
    }

    /// _match_argument for an option: '()' or '([A])'.
    fn match_argument(act: Act, pattern: &[char]) -> (r: Result<usize, Stop>)
        ensures
            match match_argument_spec(act, pattern@) {
                Err(e) => r matches Err(x) && x@ == e,
                Ok(n) => r matches Ok(k) && k == n,
            },
    {
        if act.nargs() == 0 {
            Ok(0)
        } else if pattern.len() > 0 && pattern[0] == 'A' {
            Ok(1)
        } else {
            let mut m = String::from_str("argument ");
            m.append(act.name());
            m.append(": expected one argument");
            Err(Stop::Error(m))
        }
    }

    fn explicit_loop(
        &self,
        start: usize,
        act: Act,
        os: Vec<char>,
        sep: Option<Vec<char>>,
        ex: Option<Vec<char>>,
        acc: Vec<(Act, Vec<Vec<char>>)>,
    ) -> (r: Result<(Vec<(Act, Vec<Vec<char>>)>, Option<Vec<char>>, usize), Stop>)
        requires
            self.wf(),
            start < self.argv().len(),
            ex is Some ==> os@.len() >= 2,
        ensures
            match explicit_loop_spec(
                self.argv(),
                self.pattern@,
                start as int,
                act,
                os@,
                opt_chars_view(sep),
                opt_chars_view(ex),
                accs_view(acc@),
            ) {
                Err(e) => r matches Err(x) && x@ == e,
                Ok((a, x, stop)) => r matches Ok((ra, rx, rs)) && accs_view(ra@) == a && opt_chars_view(rx) == x
                    && rs == stop,
            },
        decreases ex_measure(opt_chars_view(ex)),
    {
        match ex {
            Some(e) => {
                let arg_count = act.nargs();
                if arg_count == 0 && os[1] != '-' && e.len() > 0 {
                    let first = e[0];
                    let sep_nonempty = match &sep {
                        Some(sp) => sp.len() > 0,
                        None => false,
                    };
                    if sep_nonempty || first == '-' {
                        return Err(Stop::Error(ignored_explicit(act, e.as_slice())));
                    }
                    let mut acc2 = acc;
                    let no_values: Vec<Vec<char>> = Vec::new();
                    assert(vecs_view(no_values@) =~= seq![]);
                    acc2.push((act, no_values));
                    proof {
                        assert(accs_view(acc2@) =~= accs_view(acc@).push((act, seq![])));
                    }
                    let mut os2: Vec<char> = Vec::new();
                    os2.push('-');
                    os2.push(first);
                    assert(os2@ =~= seq!['-', first]);
                    let rest = to_chars(&e[1..e.len()]);
                    assert(rest@ =~= e@.skip(1));
                    match lookup(os2.as_slice()) {
                        Some(a) => {
                            if rest.len() == 0 {
                                self.explicit_loop(start, a, os2, None, None, acc2)
                            } else if rest[0] == '=' {
                                let mut eqs: Vec<char> = Vec::new();
                                eqs.push('=');
                                assert(eqs@ =~= seq!['=']);
                                let r2 = to_chars(&rest[1..rest.len()]);
                                assert(r2@ =~= rest@.skip(1));
                                self.explicit_loop(start, a, os2, Some(eqs), Some(r2), acc2)
                            } else {
                                let empty: Vec<char> = Vec::new();
                                assert(empty@ =~= seq![]);
                                self.explicit_loop(start, a, os2, Some(empty), Some(rest), acc2)
                            }
                        },
                        None => {
                            let mut x: Vec<char> = Vec::new();
                            x.push('-');
                            let mut k: usize = 0;
                            while k < e.len()
                                invariant
                                    k <= e@.len(),
                                    x@ == seq!['-'] + e@.take(k as int),
                                decreases e@.len() - k,
                            {
                                x.push(e[k]);
                                proof {
                                    assert(e@.take(k + 1) =~= e@.take(k as int).push(e@[k as int]));
                                }
                                k += 1;
                            }
                            assert(e@.take(e@.len() as int) =~= e@);
                            Ok((acc2, Some(x), start + 1))
                        },
                    }
                } else if arg_count == 1 {
                    let mut vals: Vec<Vec<char>> = Vec::new();
                    vals.push(e);
                    let mut acc2 = acc;
                    let ghost ev = e@;
                    acc2.push((act, vals));
                    proof {
                        assert(vecs_view(vals@) =~= seq![ev]);
                        assert(accs_view(acc2@) =~= accs_view(acc@).push((act, seq![ev])));
                    }
                    Ok((acc2, None, start + 1))
                } else {
                    Err(Stop::Error(ignored_explicit(act, e.as_slice())))
                }
            },
            None => {
                let s = start + 1;
                let from = if s < self.pattern.len() {
                    s
                } else {
                    self.pattern.len()
                };
                let pat = &self.pattern[from..self.pattern.len()];
                assert(pat@ =~= self.pattern@.skip(from as int));
                match Self::match_argument(act, pat) {
                    Err(e) => Err(e),
                    Ok(n) => {
                        let vals = copy_args(&self.args, s, s + n);
                        let mut acc2 = acc;
                        let ghost vv = vecs_view(vals@);
                        acc2.push((act, vals));
                        proof {
                            assert(accs_view(acc2@) =~= accs_view(acc@).push((act, vv)));
                        }
                        Ok((acc2, None, s + n))
                    },
                }
            },
        }
    }
}

/// "argument A: ignored explicit argument 'X'"
fn ignored_explicit(act: Act, ex: &[char]) -> (m: String)
    ensures
        m@ == ignored_msg(act, ex@),
{
    let mut m = String::from_str("argument ");
    m.append(act.name());
    m.append(": ignored explicit argument ");
    let es = string_of(ex);
    let r = str_repr(es.as_str());
    m.append(r.as_str());
    m
}

/// Copies of the arguments from `a` to `b`.
fn copy_args(args: &Vec<Vec<char>>, a: usize, b: usize) -> (r: Vec<Vec<char>>)
    requires
        a <= b <= args@.len(),
    ensures
        vecs_view(r@) == vecs_view(args@).subrange(a as int, b as int),
{
    let mut r: Vec<Vec<char>> = Vec::new();
    let mut i = a;
    while i < b
        invariant
            a <= i <= b,
            b <= args@.len(),
            vecs_view(r@) == vecs_view(args@).subrange(a as int, i as int),
        decreases b - i,
    {
        let c = to_chars(args[i].as_slice());
        let ghost before = vecs_view(r@);
        r.push(c);
        proof {
            assert(vecs_view(r@) =~= before.push(c@));
            assert(vecs_view(args@).subrange(a as int, i + 1) =~= vecs_view(args@).subrange(a as int, i as int).push(
                args@[i as int]@,
            ));
        }
        i += 1;
    }
    r
}

proof fn lemma_apply_err(st: PSt, acts: Seq<(Act, Seq<Seq<char>>)>, i: int)
    requires
        0 <= i <= acts.len(),
        apply_actions(st, acts.take(i)) is Err,
    ensures
        apply_actions(st, acts) == apply_actions(st, acts.take(i)),
    decreases acts.len() - i,
{
    if i < acts.len() {
        assert(acts.take(i + 1).drop_last() =~= acts.take(i));
        lemma_apply_err(st, acts, i + 1);
    } else {
        assert(acts.take(i) =~= acts);
    }
}

proof fn lemma_remove_first_dd(v: Seq<Seq<char>>, k: int)
    requires
        0 <= k <= v.len(),
        forall|j: int| 0 <= j < k ==> v[j] != seq!['-', '-'],
        k < v.len() ==> v[k] == seq!['-', '-'],
    ensures
        remove_first_dd(v) == if k < v.len() {
            v.take(k) + v.skip(k + 1)
        } else {
            v
        },
    decreases k,
{
    if v.len() == 0 {
    } else if k == 0 {
        assert(v.take(0) + v.skip(1) =~= v.skip(1));
    } else {
        let t = v.skip(1);
        assert forall|j: int| 0 <= j < k - 1 implies t[j] != seq!['-', '-'] by {
            assert(t[j] == v[j + 1]);
        }
        lemma_remove_first_dd(t, k - 1);
        if k < v.len() {
            assert(seq![v[0]] + (t.take(k - 1) + t.skip(k)) =~= v.take(k) + v.skip(k + 1));
        } else {
            assert(seq![v[0]] + t =~= v);
        }
    }
}

/// "ambiguous option: ARG could match A, B"
fn ambiguous_msg(arg: &Vec<char>, ts: &Vec<OptTuple>) -> (m: String)
    ensures
        m@ == "ambiguous option: "@ + arg@ + " could match "@ + join_with(
            tuples_view(ts@).map_values(|t: OptV| t.option_string),
            ", "@,
        ),
{
    let ghost parts = tuples_view(ts@).map_values(|t: OptV| t.option_string);
    let mut m = String::from_str("ambiguous option: ");
    push_chars(&mut m, arg.as_slice());
    m.append(" could match ");
    let ghost head = m@;
    let mut i: usize = 0;
    while i < ts.len()
        invariant
            i <= ts@.len(),
            parts == tuples_view(ts@).map_values(|t: OptV| t.option_string),
            parts.len() == ts@.len(),
            m@ == head + join_with(parts.take(i as int), ", "@),
        decreases ts@.len() - i,
    {
        if i > 0 {
            m.append(", ");
        }
        push_chars(&mut m, ts[i].option_string.as_slice());
        proof {
            assert(parts.take(i + 1).drop_last() =~= parts.take(i as int));
            assert(parts[i as int] == ts@[i as int].option_string@);
            if i == 0 {
                assert(parts.take(0) =~= seq![]);
            }
        }
        i += 1;
    }
    assert(parts.take(ts@.len() as int) =~= parts);
    m
}

/// The strings made of the character vectors.
fn strings_of(v: &Vec<Vec<char>>) -> (r: Vec<String>)
    ensures
        strs_view(r@) == vecs_view(v@),
{
    let mut r: Vec<String> = Vec::new();
    let mut i: usize = 0;
    while i < v.len()
        invariant
            i <= v@.len(),
            strs_view(r@) == vecs_view(v@).take(i as int),
        decreases v@.len() - i,
    {
        let s = string_of(v[i].as_slice());
        let ghost before = strs_view(r@);
        r.push(s);
        proof {
            assert(strs_view(r@) =~= before.push(s@));
            assert(vecs_view(v@).take(i + 1) =~= vecs_view(v@).take(i as int).push(v@[i as int]@));
        }
        i += 1;
    }
    assert(vecs_view(v@).take(v@.len() as int) =~= vecs_view(v@));
    r
}

impl Parser {
    fn consume_optional(&mut self, start: usize) -> (r: Result<usize, Stop>)
        requires
            old(self).wf(),
            start < old(self).argv().len(),
            old(self).optv()[start as int] is Some,
        ensures
            final(self).same_input(old(self)),
            match consume_optional_spec(
                old(self).argv(),
                old(self).pattern@,
                old(self).optv(),
                old(self).st(),
                start as int,
            ) {
                Err(e) => r matches Err(x) && x@ == e,
                Ok((st, stop)) => r matches Ok(k) && k == stop && final(self).st() == st,
            },
            r matches Ok(k) ==> start < k <= old(self).argv().len() && k <= start + 2,
            r matches Err(Stop::Error(_)) ==> final(self).st() == old(self).st(),
    {
        let ghost argv = self.argv();
        let ghost st0 = self.st();
        let ts = self.options[start].as_ref().unwrap();
        assert(tuples_view(ts@) == self.optv()[start as int]->0);
        if ts.len() > 1 {
            return Err(Stop::Error(ambiguous_msg(&self.args[start], ts)));
        }
        let t0 = copy_tuple(&ts[0]);
        assert(t0@ == self.optv()[start as int]->0[0]);
        match t0.action {
            None => {
                let a = to_chars(self.args[start].as_slice());
                let ghost before = vecs_view(self.extras@);
                self.extras.push(a);
                assert(vecs_view(self.extras@) =~= before.push(argv[start as int]));
                Ok(start + 1)
            },
            Some(act) => {
                assert(tuple_ok(self.optv()[start as int]->0[0]));
                let no_acts: Vec<(Act, Vec<Vec<char>>)> = Vec::new();
                assert(accs_view(no_acts@) =~= seq![]);
                let res = self.explicit_loop(start, act, t0.option_string, t0.sep, t0.explicit_arg, no_acts);
                proof {
                    lemma_explicit_loop(
                        argv,
                        self.pattern@,
                        start as int,
                        act,
                        t0@.option_string,
                        t0@.sep,
                        t0@.explicit_arg,
                        seq![],
                    );
                }
                match res {
                    Err(e) => Err(e),
                    Ok((acts, extra, stop)) => {
                        match extra {
                            Some(x) => {
                                let ghost before = vecs_view(self.extras@);
                                let ghost xv = x@;
                                self.extras.push(x);
                                assert(vecs_view(self.extras@) =~= before.push(xv));
                            },
                            None => {},
                        }
                        let ghost st1 = self.st();
                        let ghost av = accs_view(acts@);
                        assert(av.take(0) =~= seq![]);
                        let ghost whole = consume_optional_spec(argv, old(self).pattern@, old(self).optv(), st0, start as int);
                        assert(whole == match apply_actions(st1, av) {
                            Err(e) => Err(e),
                            Ok(st2) => Ok((st2, stop as int)),
                        });
                        let mut i: usize = 0;
                        while i < acts.len()
                            invariant
                                whole == match apply_actions(st1, av) {
                                    Err(e) => Err(e),
                                    Ok(st2) => Ok((st2, stop as int)),
                                },
                                whole == consume_optional_spec(argv, old(self).pattern@, old(self).optv(), st0, start as int),
                                argv == old(self).argv(),
                                st0 == old(self).st(),
                                i <= acts@.len(),
                                av == accs_view(acts@),
                                acts_ok(av),
                                apply_actions(st1, av.take(i as int)) == Ok::<PSt, StopV>(self.st()),
                                self.args@ == old(self).args@,
                                self.pattern@ == old(self).pattern@,
                                self.options@ == old(self).options@,
                            decreases acts@.len() - i,
                        {
                            assert(av[i as int] == (acts@[i as int].0, vecs_view(acts@[i as int].1@)));
                            assert(av.take(i + 1).drop_last() =~= av.take(i as int));
                            assert(av.take(i + 1).last() == av[i as int]);
                            let ghost pre = self.st();
                            match self.take_action(acts[i].0, &acts[i].1) {
                                Err(e) => {
                                    proof {
                                        assert(take_action_spec(pre, av[i as int].0, av[i as int].1) is Err);
                                        assert(apply_actions(st1, av.take(i + 1)) == take_action_spec(
                                            pre,
                                            av[i as int].0,
                                            av[i as int].1,
                                        ));
                                        lemma_apply_err(st1, av, i + 1);
                                    }
                                    return Err(e);
                                },
                                Ok(()) => {},
                            }
                            i += 1;
                        }
                        assert(av.take(acts@.len() as int) =~= av);
                        Ok(stop)
                    },
                }
            },
        }
    }

    fn consume_positionals(&mut self, start: usize) -> (r: usize)
        requires
            old(self).wf(),
            start <= old(self).argv().len(),
        ensures
            final(self).same_input(old(self)),
            (final(self).st(), r as int) == consume_positionals_spec(
                old(self).argv(),
                old(self).pattern@,
                old(self).st(),
                start as int,
            ),
            start <= r <= old(self).argv().len(),
    {
        if !self.inputs_pending {
            return start;
        }
        let n = self.pattern.len() - start;
        let ghost pat = self.pattern@.skip(start as int);
        let mut i: usize = 0;
        while i < n && self.pattern[start + i] == '-'
            invariant
                i <= n,
                n == pat.len(),
                start + n == self.pattern.len(),
                pat == self.pattern@.skip(start as int),
                skip_char(pat, 0, '-') == skip_char(pat, i as int, '-'),
            decreases n - i,
        {
            i += 1;
        }
        if i >= n || self.pattern[start + i] != 'A' {
            return start;
        }
        let i0 = i;
        i += 1;
        while i < n && (self.pattern[start + i] == 'A' || self.pattern[start + i] == '-')
            invariant
                i0 < i <= n,
                n == pat.len(),
                start + n == self.pattern.len(),
                pat == self.pattern@.skip(start as int),
                skip_args(pat, i0 + 1) == skip_args(pat, i as int),
            decreases n - i,
        {
            i += 1;
        }
        let mut values = copy_args(&self.args, start, start + i);
        let mut has_dash = false;
        let mut j: usize = 0;
        while j < i
            invariant
                j <= i <= n,
                start + n == self.pattern.len(),
                pat == self.pattern@.skip(start as int),
                has_dash == exists|w: int| 0 <= w < j && #[trigger] pat[w] == '-',
            decreases i - j,
        {
            if self.pattern[start + j] == '-' {
                has_dash = true;
                assert(pat[j as int] == '-');
            }
            j += 1;
        }
        proof {
            if has_dash {
                let w = choose|w: int| 0 <= w < i && #[trigger] pat[w] == '-';
                assert(pat.take(i as int)[w] == '-');
            }
            if pat.take(i as int).contains('-') {
                let w = choose|w: int| 0 <= w < i && #[trigger] pat.take(i as int)[w] == '-';
                assert(pat[w] == '-');
            }
        }
        let ghost values0 = vecs_view(values@);
        if has_dash {
            let mut dd: Vec<char> = Vec::new();
            dd.push('-');
            dd.push('-');
            assert(dd@ =~= seq!['-', '-']);
            let mut k: usize = 0;
            while k < values.len() && !chars_eq(values[k].as_slice(), dd.as_slice())
                invariant
                    k <= values@.len(),
                    values0 == vecs_view(values@),
                    dd@ == seq!['-', '-'],
                    forall|w: int| 0 <= w < k ==> values0[w] != seq!['-', '-'],
                decreases values@.len() - k,
            {
                k += 1;
            }
            proof {
                lemma_remove_first_dd(values0, k as int);
            }
            if k < values.len() {
                values.remove(k);
                assert(vecs_view(values@) =~= values0.take(k as int) + values0.skip(k + 1));
            }
        }
        let inputs = strings_of(&values);
        self.ns.inputs = inputs;
        self.inputs_pending = false;
        start + i
    }
}

/// The first option position from `i` on, not past `max_opt`.
pub open spec fn next_some(options: Seq<Option<Seq<OptV>>>, i: int, max_opt: int) -> int
    decreases max_opt + 1 - i,
{
    if i < 0 || i >= max_opt || options[i] is Some {
        i
    } else {
        next_some(options, i + 1, max_opt)
    }
}

/// The last option position before `m`, or -1.
pub open spec fn last_some(options: Seq<Option<Seq<OptV>>>, m: int) -> int
    decreases m,
{
    if m <= 0 {
        -1
    } else if options[m - 1] is Some {
        m - 1
    } else {
        last_some(options, m - 1)
    }
}

/// The main loop of _parse_known_args, from `start`, while options remain.
pub open spec fn run_loop(
    argv: Seq<Seq<char>>,
    pattern: Seq<char>,
    options: Seq<Option<Seq<OptV>>>,
    max_opt: int,
    start: int,
    st: PSt,
) -> Result<(PSt, int), StopV>
    decreases argv.len() - start,
{
    if start < 0 || start > max_opt || start >= argv.len() {
        Ok((st, start))
    } else {
        let next = next_some(options, start, max_opt);
        let (st1, end) = if start != next {
            consume_positionals_spec(argv, pattern, st, start)
        } else {
            (st, start)
        };
        if end > start {
            if end <= argv.len() {
                run_loop(argv, pattern, options, max_opt, end, st1)
            } else {
                Ok((st1, end))
            }
        } else {
            let (st2, s2) = if options[start] is None {
                (with_extras(st1, st1.extras + argv.subrange(start, next)), next)
            } else {
                (st1, start)
            };
            match consume_optional_spec(argv, pattern, options, st2, s2) {
                Err(e) => Err(e),
                Ok((st3, stop)) => if start < stop <= argv.len() {
                    run_loop(argv, pattern, options, max_opt, stop, st3)
                } else {
                    Ok((st3, stop))
                },
            }
        }
    }
}

/// _parse_known_args: the final state, or why parsing stopped.
pub open spec fn run_spec(argv: Seq<Seq<char>>, pattern: Seq<char>, options: Seq<Option<Seq<OptV>>>, st0: PSt) -> Result<
    PSt,
    StopV,
> {
    let max_opt = last_some(options, options.len() as int);
    let r = if max_opt >= 0 {
        run_loop(argv, pattern, options, max_opt, 0, st0)
    } else {
        Ok((st0, 0))
    };
    match r {
        Err(e) => Err(e),
        Ok((st, start)) => {
            let (st2, stop) = consume_positionals_spec(argv, pattern, st, start);
            let st3 = with_extras(st2, st2.extras + argv.skip(stop));
            if st3.pending {
                Err(StopV::Error("the following arguments are required: INPUT"@))
            } else {
                Ok(st3)
            }
        },
    }
}

/// The position of the first "--" from `i` on, or the number of arguments.
pub open spec fn dd_from(argv: Seq<Seq<char>>, i: int) -> int
    decreases argv.len() - i,
{
    if i < 0 || i >= argv.len() {
        argv.len() as int
    } else if argv[i] == seq!['-', '-'] {
        i
    } else {
        dd_from(argv, i + 1)
    }
}

/// The pattern letters of the arguments: 'O' for an option, '-' for the
/// first "--", 'A' for any other argument (and for all after "--").
pub open spec fn pattern_of(argv: Seq<Seq<char>>) -> Seq<char> {
    let dd = dd_from(argv, 0);
    Seq::new(
        argv.len(),
        |i: int|
            if i > dd {
                'A'
            } else if i == dd {
                '-'
            } else if parse_optional_spec(argv[i]) is Some {
                'O'
            } else {
                'A'
            },
    )
}

/// The option matches of the arguments before the first "--".
pub open spec fn options_of(argv: Seq<Seq<char>>) -> Seq<Option<Seq<OptV>>> {
    let dd = dd_from(argv, 0);
    Seq::new(argv.len(), |i: int| if i < dd { parse_optional_spec(argv[i]) } else { None })
}

/// The outcome of parsing a command line.
pub enum Parsed {
    /// Go on with these arguments.
    Run(Args),
    /// Print the help text and stop with status 0.
    Help,
    /// Print the usage line and this error, and stop with status 2.
    Error(String),
}

pub enum ParsedV {
    Run(ArgsV),
    Help,
    Error(Seq<char>),
}

impl View for Parsed {
    type V = ParsedV;

    open spec fn view(&self) -> ParsedV {
        match self {
            Parsed::Run(a) => ParsedV::Run(a@),
            Parsed::Help => ParsedV::Help,
            Parsed::Error(m) => ParsedV::Error(m@),
        }
    }
}

pub open spec fn initial_state() -> PSt {
    PSt { ns: args_default(), pending: true, extras: seq![] }
}

/// parser.parse_args(args), with the help and error exits as outcomes.
pub open spec fn parse_spec(argv: Seq<Seq<char>>) -> ParsedV {
    match run_spec(argv, pattern_of(argv), options_of(argv), initial_state()) {
        Err(StopV::Help) => ParsedV::Help,
        Err(StopV::Error(m)) => ParsedV::Error(m),
        Ok(st) => if st.extras.len() > 0 {
            ParsedV::Error("unrecognized arguments: "@ + join_with(st.extras, " "@))
        } else {
            ParsedV::Run(st.ns)
        },
    }
}

impl Parser {
    fn run(&mut self) -> (r: Result<(), Stop>)
        requires
            old(self).wf(),
        ensures
            match run_spec(old(self).argv(), old(self).pattern@, old(self).optv(), old(self).st()) {
                Err(e) => r matches Err(x) && x@ == e,
                Ok(st) => r is Ok && final(self).st() == st,
            },
    {
        let ghost argv = self.argv();
        let ghost pattern = self.pattern@;
        let ghost optv = self.optv();
        let ghost st0 = self.st();
        let mut m = self.options.len();
        while m > 0 && self.options[m - 1].is_none()
            invariant
                m <= self.options@.len(),
                optv == optvs_view(self.options@),
                last_some(optv, optv.len() as int) == last_some(optv, m as int),
            decreases m,
        {
            assert(optv[m - 1] is None);
            m -= 1;
        }
        let mut start: usize = 0;
        let ghost r0: Result<(PSt, int), StopV> = if m > 0 {
            run_loop(argv, pattern, optv, m - 1, 0, st0)
        } else {
            Ok((st0, 0))
        };
        if m > 0 {
            let max_opt = m - 1;
            assert(optv[max_opt as int] is Some);
            while start <= max_opt
                invariant
                    max_opt < argv.len(),
                    optv[max_opt as int] is Some,
                    start <= argv.len(),
                    self.wf(),
                    argv == self.argv(),
                    pattern == self.pattern@,
                    optv == self.optv(),
                    r0 == run_loop(argv, pattern, optv, max_opt as int, start as int, self.st()),
                    r0 == run_loop(argv, pattern, optv, max_opt as int, 0, st0),
                    max_opt as int == last_some(optv, optv.len() as int),
                    argv == old(self).argv(),
                    pattern == old(self).pattern@,
                    optv == old(self).optv(),
                    st0 == old(self).st(),
                decreases argv.len() - start,
            {
                let mut next = start;
                while next < max_opt && self.options[next].is_none()
                    invariant
                        start <= next <= max_opt,
                        max_opt < argv.len(),
                        optv == self.optv(),
                        argv.len() == self.options@.len(),
                        next_some(optv, start as int, max_opt as int) == next_some(optv, next as int, max_opt as int),
                    decreases max_opt - next,
                {
                    assert(optv[next as int] is None);
                    next += 1;
                }
                let ghost st = self.st();
                let mut end = start;
                if start != next {
                    end = self.consume_positionals(start);
                }
                if end > start {
                    start = end;
                } else {
                    if self.options[start].is_none() {
                        assert(optv[start as int] is None);
                        let ghost before = vecs_view(self.extras@);
                        let ghost st1 = self.st();
                        let mut k = start;
                        while k < next
                            invariant
                                start <= k <= next,
                                next < argv.len(),
                                self.wf(),
                                argv == self.argv(),
                                pattern == self.pattern@,
                                optv == self.optv(),
                                before == st1.extras,
                                self.st() == with_extras(st1, before + argv.subrange(start as int, k as int)),
                            decreases next - k,
                        {
                            let a = to_chars(self.args[k].as_slice());
                            let ghost pre = vecs_view(self.extras@);
                            self.extras.push(a);
                            proof {
                                assert(vecs_view(self.extras@) =~= pre.push(argv[k as int]));
                                assert(argv.subrange(start as int, k + 1) =~= argv.subrange(start as int, k as int).push(
                                    argv[k as int],
                                ));
                            }
                            k += 1;
                        }
                        start = next;
                    }
                    match self.consume_optional(start) {
                        Err(e) => {
                            return Err(e);
                        },
                        Ok(stop) => {
                            start = stop;
                        },
                    }
                }
            }
        }
        assert(r0 == Ok::<(PSt, int), StopV>((self.st(), start as int)));
        let stop = self.consume_positionals(start);
        let mut k = stop;
        let ghost before = vecs_view(self.extras@);
        let ghost st_end = self.st();
        while k < self.args.len()
            invariant
                stop <= k <= argv.len(),
                argv == self.argv(),
                before == st_end.extras,
                self.st() == with_extras(st_end, before + argv.subrange(stop as int, k as int)),
            decreases argv.len() - k,
        {
            let a = to_chars(self.args[k].as_slice());
            let ghost pre = vecs_view(self.extras@);
            self.extras.push(a);
            proof {
                assert(vecs_view(self.extras@) =~= pre.push(argv[k as int]));
                assert(argv.subrange(stop as int, k + 1) =~= argv.subrange(stop as int, k as int).push(argv[k as int]));
            }
            k += 1;
        }
        assert(self.st() == with_extras(st_end, st_end.extras + argv.subrange(stop as int, argv.len() as int)));
        assert(argv.subrange(stop as int, argv.len() as int) =~= argv.skip(stop as int));
        if self.inputs_pending {
            return Err(Stop::Error(String::from_str("the following arguments are required: INPUT")));
        }
        Ok(())
    }
}

proof fn lemma_dd_from_ge(argv: Seq<Seq<char>>, j: int)
    requires
        0 <= j,
    ensures
        dd_from(argv, j) >= j || j > argv.len(),
        dd_from(argv, j) <= argv.len(),
    decreases argv.len() - j,
{
    if j < argv.len() && argv[j] != seq!['-', '-'] {
        lemma_dd_from_ge(argv, j + 1);
    }
}

/// "unrecognized arguments: A B"
fn unrecognized_msg(extras: &Vec<Vec<char>>) -> (m: String)
    ensures
        m@ == "unrecognized arguments: "@ + join_with(vecs_view(extras@), " "@),
{
    let ghost parts = vecs_view(extras@);
    let mut m = String::from_str("unrecognized arguments: ");
    let ghost head = m@;
    let mut i: usize = 0;
    while i < extras.len()
        invariant
            i <= extras@.len(),
            parts == vecs_view(extras@),
            m@ == head + join_with(parts.take(i as int), " "@),
        decreases extras@.len() - i,
    {
        if i > 0 {
            m.append(" ");
        }
        push_chars(&mut m, extras[i].as_slice());
        proof {
            assert(parts.take(i + 1).drop_last() =~= parts.take(i as int));
            if i == 0 {
                assert(parts.take(0) =~= seq![]);
            }
        }
        i += 1;
    }
    assert(parts.take(extras@.len() as int) =~= parts);
    m
}

/// Parses the command line `args` (without the program name).
pub fn parse(args: &Vec<String>) -> (r: Parsed)
    requires
        args@.len() < usize::MAX,
    ensures
        r@ == parse_spec(strs_view(args@)),
        r matches Parsed::Run(a) ==> a.inputs@.len() >= 1,
{
    proof {
        lemma_parse_run_has_inputs(strs_view(args@));
    }
    let ghost argv = strs_view(args@);
    let mut cargs: Vec<Vec<char>> = Vec::new();
    let mut pattern: Vec<char> = Vec::new();
    let mut options: Vec<Option<Vec<OptTuple>>> = Vec::new();
    let mut after_dashdash = false;
    let mut i: usize = 0;
    while i < args.len()
        invariant
            i <= args@.len(),
            argv == strs_view(args@),
            vecs_view(cargs@) == argv.take(i as int),
            pattern@ == pattern_of(argv).take(i as int),
            optvs_view(options@) == options_of(argv).take(i as int),
            after_dashdash ==> dd_from(argv, 0) < i,
            !after_dashdash ==> dd_from(argv, 0) == dd_from(argv, i as int),
        decreases args@.len() - i,
    {
        let a = chars_of(args[i].as_str());
        let ghost dd = dd_from(argv, 0);
        assert(a@ == argv[i as int]);
        let mut dd_chars: Vec<char> = Vec::new();
        dd_chars.push('-');
        dd_chars.push('-');
        assert(dd_chars@ =~= seq!['-', '-']);
        let ghost pv = pattern@;
        let ghost ov = optvs_view(options@);
        if after_dashdash {
            pattern.push('A');
            options.push(None);
        } else if chars_eq(a.as_slice(), dd_chars.as_slice()) {
            after_dashdash = true;
            pattern.push('-');
            options.push(None);
        } else {
            let t = parse_optional(a.as_slice());
            if t.is_some() {
                pattern.push('O');
            } else {
                pattern.push('A');
            }
            options.push(t);
        }
        proof {
            lemma_dd_from_ge(argv, i + 1);
            assert(pattern@ =~= pv.push(pattern_of(argv)[i as int]));
            assert(optvs_view(options@) =~= ov.push(options_of(argv)[i as int]));
            assert(pattern_of(argv).take(i + 1) =~= pattern_of(argv).take(i as int).push(pattern_of(argv)[i as int]));
            assert(options_of(argv).take(i + 1) =~= options_of(argv).take(i as int).push(options_of(argv)[i as int]));
        }
        let ghost cv = vecs_view(cargs@);
        cargs.push(a);
        proof {
            assert(vecs_view(cargs@) =~= cv.push(argv[i as int]));
            assert(argv.take(i + 1) =~= argv.take(i as int).push(argv[i as int]));
        }
        i += 1;
    }
    proof {
        assert(argv.take(args@.len() as int) =~= argv);
        assert(pattern_of(argv).take(args@.len() as int) =~= pattern_of(argv));
        assert(options_of(argv).take(args@.len() as int) =~= options_of(argv));
        assert forall|k: int| 0 <= k < argv.len() && (#[trigger] options_of(argv)[k]) is Some implies tuples_ok(
            options_of(argv)[k]->0,
        ) by {
            lemma_parse_optional_ok(argv[k]);
        }
    }
    let mut p = Parser {
        args: cargs,
        pattern,
        options,
        ns: Args::default(),
        inputs_pending: true,
        extras: Vec::new(),
    };
    assert(vecs_view(p.extras@) =~= seq![]);
    assert(p.st() == initial_state());
    match p.run() {
        Err(Stop::Help) => Parsed::Help,
        Err(Stop::Error(m)) => Parsed::Error(m),
        Ok(()) => {
            if p.extras.len() > 0 {
                Parsed::Error(unrecognized_msg(&p.extras))
            } else {
                Parsed::Run(p.ns)
            }
        },
    }
}

/// Once INPUT is matched, it holds at least one value.
pub open spec fn inputs_ok(st: PSt) -> bool {
    st.pending || st.ns.inputs.len() >= 1
}

proof fn lemma_apply_keeps_inputs(st: PSt, acts: Seq<(Act, Seq<Seq<char>>)>)
    ensures
        apply_actions(st, acts) matches Ok(s) ==> s.pending == st.pending && s.ns.inputs == st.ns.inputs,
    decreases acts.len(),
{
    if acts.len() > 0 {
        lemma_apply_keeps_inputs(st, acts.drop_last());
    }
}

proof fn lemma_remove_first_dd_len(v: Seq<Seq<char>>)
    ensures
        remove_first_dd(v).len() + 1 >= v.len(),
    decreases v.len(),
{
    if v.len() > 0 && v[0] != seq!['-', '-'] {
        lemma_remove_first_dd_len(v.skip(1));
    }
}

proof fn lemma_skip_args(pat: Seq<char>, j: int)
    requires
        0 <= j <= pat.len(),
    ensures
        j <= skip_args(pat, j) <= pat.len(),
    decreases pat.len() - j,
{
    if j < pat.len() && (pat[j] == 'A' || pat[j] == '-') {
        lemma_skip_args(pat, j + 1);
    }
}

proof fn lemma_skip_char(pat: Seq<char>, j: int, c: char)
    requires
        0 <= j <= pat.len(),
    ensures
        j <= skip_char(pat, j, c) <= pat.len(),
    decreases pat.len() - j,
{
    if j < pat.len() && pat[j] == c {
        lemma_skip_char(pat, j + 1, c);
    }
}

proof fn lemma_positionals_inputs(argv: Seq<Seq<char>>, pattern: Seq<char>, st: PSt, start: int)
    requires
        0 <= start <= argv.len(),
        pattern.len() == argv.len(),
        inputs_ok(st),
    ensures
        inputs_ok(consume_positionals_spec(argv, pattern, st, start).0),
        start <= consume_positionals_spec(argv, pattern, st, start).1 <= argv.len(),
{
    if st.pending {
        let pat = pattern.skip(start);
        let i0 = skip_char(pat, 0, '-');
        lemma_skip_char(pat, 0, '-');
        if i0 < pat.len() && pat[i0] == 'A' {
            let i = skip_args(pat, i0 + 1);
            lemma_skip_args(pat, i0 + 1);
            let values0 = argv.subrange(start, start + i);
            if pat.take(i).contains('-') {
                let w = choose|w: int| 0 <= w < i && pat.take(i)[w] == '-';
                assert(pat.take(i)[w] == pat[w]);
                assert(w != i0);
                lemma_remove_first_dd_len(values0);
            }
        }
    }
}

proof fn lemma_run_loop_inputs(
    argv: Seq<Seq<char>>,
    pattern: Seq<char>,
    options: Seq<Option<Seq<OptV>>>,
    max_opt: int,
    start: int,
    st: PSt,
)
    requires
        0 <= start <= argv.len(),
        pattern.len() == argv.len(),
        options.len() == argv.len(),
        max_opt < argv.len(),
        inputs_ok(st),
    ensures
        run_loop(argv, pattern, options, max_opt, start, st) matches Ok((s, k)) ==> inputs_ok(s) && 0 <= k
            <= argv.len(),
    decreases argv.len() - start,
{
    if start < 0 || start > max_opt || start >= argv.len() {
    } else {
        let next = next_some(options, start, max_opt);
        lemma_next_some(options, start, max_opt);
        lemma_positionals_inputs(argv, pattern, st, start);
        let (st1, end) = if start != next {
            consume_positionals_spec(argv, pattern, st, start)
        } else {
            (st, start)
        };
        if end > start {
            if end <= argv.len() {
                lemma_run_loop_inputs(argv, pattern, options, max_opt, end, st1);
            }
        } else {
            let (st2, s2) = if options[start] is None {
                (with_extras(st1, st1.extras + argv.subrange(start, next)), next)
            } else {
                (st1, start)
            };
            let ts = options[s2]->0;
            if ts.len() <= 1 {
                match ts[0].action {
                    None => {},
                    Some(a) => {
                        lemma_explicit_loop(
                            argv,
                            pattern,
                            s2,
                            a,
                            ts[0].option_string,
                            ts[0].sep,
                            ts[0].explicit_arg,
                            seq![],
                        );
                        match explicit_loop_spec(
                            argv,
                            pattern,
                            s2,
                            a,
                            ts[0].option_string,
                            ts[0].sep,
                            ts[0].explicit_arg,
                            seq![],
                        ) {
                            Err(_) => {},
                            Ok((acts, extra, stop)) => {
                                let st3 = match extra {
                                    Some(x) => with_extras(st2, st2.extras.push(x)),
                                    None => st2,
                                };
                                lemma_apply_keeps_inputs(st3, acts);
                            },
                        }
                    },
                }
            }
            match consume_optional_spec(argv, pattern, options, st2, s2) {
                Err(_) => {},
                Ok((st3, stop)) => {
                    if start < stop <= argv.len() {
                        lemma_run_loop_inputs(argv, pattern, options, max_opt, stop, st3);
                    }
                },
            }
        }
    }
}

proof fn lemma_next_some(options: Seq<Option<Seq<OptV>>>, i: int, max_opt: int)
    requires
        0 <= i <= max_opt,
    ensures
        i <= next_some(options, i, max_opt) <= max_opt,
    decreases max_opt + 1 - i,
{
    if i < max_opt && options[i] is None {
        lemma_next_some(options, i + 1, max_opt);
    }
}

proof fn lemma_last_some(options: Seq<Option<Seq<OptV>>>, m: int)
    requires
        0 <= m <= options.len(),
    ensures
        -1 <= last_some(options, m) < m,
    decreases m,
{
    if m > 0 && options[m - 1] is None {
        lemma_last_some(options, m - 1);
    }
}

/// A successful parse has matched INPUT, which takes one or more values:
/// the arguments it returns hold at least one input.
pub proof fn lemma_parse_run_has_inputs(argv: Seq<Seq<char>>)
    ensures
        parse_spec(argv) matches ParsedV::Run(ns) ==> ns.inputs.len() >= 1,
{
    let pattern = pattern_of(argv);
    let options = options_of(argv);
    let st0 = initial_state();
    let max_opt = last_some(options, options.len() as int);
    lemma_last_some(options, options.len() as int);
    if max_opt >= 0 {
        lemma_run_loop_inputs(argv, pattern, options, max_opt, 0, st0);
    }
    let r = if max_opt >= 0 {
        run_loop(argv, pattern, options, max_opt, 0, st0)
    } else {
        Ok((st0, 0))
    };
    match r {
        Err(_) => {},
        Ok((st, start)) => {
            lemma_positionals_inputs(argv, pattern, st, start);
        },
    }
}

} // verus!
