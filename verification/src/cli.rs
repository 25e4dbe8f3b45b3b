//! The decisions of the command-line tool: its flags, which subcommand the
//! arguments name, and whether a file is streamed.

use vstd::prelude::*;
use crate::text::{chars_of, chars_eq};
use crate::types::is_digit;

verus! {

/// Whether files are streamed.
#[derive(Clone, Copy, Debug, PartialEq, Eq, Structural)]
pub enum StreamMode {
    /// Streamed when large enough; standard input never is.
    Auto,
    /// Always streamed (but standard input).
    Force,
    /// Never streamed.
    Never,
}

/// The mode the flags among `args` set: the last of `--stream` and
/// `--no-stream` wins.
pub open spec fn mode_of(args: Seq<Seq<char>>) -> StreamMode
    decreases args.len(),
{
    if args.len() == 0 {
        StreamMode::Auto
    } else if args.last() == "--stream"@ {
        StreamMode::Force
    } else if args.last() == "--no-stream"@ {
        StreamMode::Never
    } else {
        mode_of(args.drop_last())
    }
}

/// The arguments that are not streaming flags, in order.
pub open spec fn without_flags(args: Seq<Seq<char>>) -> Seq<Seq<char>>
    decreases args.len(),
{
    if args.len() == 0 {
        seq![]
    } else {
        let prev = without_flags(args.drop_last());
        if args.last() == "--stream"@ || args.last() == "--no-stream"@ { prev } else { prev.push(args.last()) }
    }
}

fn is_text(s: &str, lit: &str) -> (b: bool)
    ensures
        b == (s@ == lit@),
{
    let a = chars_of(s);
    let b = chars_of(lit);
    chars_eq(&a, &b)
}

/// Takes the streaming flags out of the arguments, wherever they stand.
pub fn parse_stream_flag(args: &Vec<String>) -> (r: (StreamMode, Vec<String>))
    ensures
        r.0 == mode_of(args.deep_view()),
        r.1.deep_view() == without_flags(args.deep_view()),
{
    let ghost a = args.deep_view();
    let mut mode = StreamMode::Auto;
    let mut rest: Vec<String> = Vec::new();
    let mut i: usize = 0;
    while i < args.len()
        invariant
            a == args.deep_view(),
            a.len() == args@.len(),
            i <= args.len(),
            mode == mode_of(a.take(i as int)),
            rest.deep_view() == without_flags(a.take(i as int)),
        decreases args.len() - i,
    {
        assert(a.take(i + 1).drop_last() =~= a.take(i as int));
        assert(a[i as int] == args@[i as int]@);
        if is_text(args[i].as_str(), "--stream") {
            mode = StreamMode::Force;
        } else if is_text(args[i].as_str(), "--no-stream") {
            mode = StreamMode::Never;
        } else {
            let s = args[i].clone();
            let ghost r0 = rest;
            rest.push(s);
            assert(rest.deep_view() =~= r0.deep_view().push(a[i as int]));
        }
        i += 1;
    }
    assert(a.take(args.len() as int) =~= a);
    (mode, rest)
}

/// Whether the file at `path` is streamed, given the mode, the file's size
/// when it could be read, and the size from which files are streamed.
/// Standard input (`-`) never is, since aligning a stream reads it twice.
pub fn should_stream(path: &str, mode: StreamMode, size: Option<u64>, threshold: u64) -> (b: bool)
    ensures
        b == (path@ != "-"@ && match mode {
            StreamMode::Force => true,
            StreamMode::Never => false,
            StreamMode::Auto => size matches Some(n) && n >= threshold,
        }),
{
    if is_text(path, "-") {
        return false;
    }
    match mode {
        StreamMode::Force => true,
        StreamMode::Never => false,
        StreamMode::Auto => match size {
            Some(n) => n >= threshold,
            None => false,
        },
    }
}

// ---------------------------------------------------------------------------
// Numbers given as text
// ---------------------------------------------------------------------------

/// The value of a run of decimal digits.
pub open spec fn digits_value(s: Seq<char>) -> nat
    decreases s.len(),
{
    if s.len() == 0 { 0 } else { (digits_value(s.drop_last()) * 10 + (s.last() as int - '0' as int)) as nat }
}

/// `s` without one leading `+`.
pub open spec fn unsigned_digits(s: Seq<char>) -> Seq<char> {
    if s.len() > 0 && s[0] == '+' { s.skip(1) } else { s }
}

/// `s` is an optional `+` and then one or more decimal digits.
pub open spec fn is_unsigned_text(s: Seq<char>) -> bool {
    unsigned_digits(s).len() > 0 && forall|k: int| 0 <= k < unsigned_digits(s).len() ==> is_digit(#[trigger] unsigned_digits(s)[k])
}

/// The number `s` writes (see [`is_unsigned_text`]).
pub open spec fn unsigned_value(s: Seq<char>) -> nat {
    digits_value(unsigned_digits(s))
}

/// Reads an unsigned number no larger than `max`, as `str::parse` reads
/// unsigned integers: an optional `+`, then decimal digits only.
pub fn parse_unsigned(s: &str, max: u64) -> (r: Option<u64>)
    ensures
        r is Some <==> (is_unsigned_text(s@) && unsigned_value(s@) <= max),
        r matches Some(n) ==> n == unsigned_value(s@),
{
    let v = chars_of(s);
    let start: usize = if v.len() > 0 && v[0] == '+' { 1 } else { 0 };
    let ghost d = unsigned_digits(s@);
    assert(d =~= v@.subrange(start as int, v@.len() as int));
    if start >= v.len() {
        assert(d.len() == 0);
        return None;
    }
    let mut i: usize = start;
    while i < v.len()
        invariant
            start <= i <= v.len(),
            d == v@.subrange(start as int, v@.len() as int),
            v@ == s@,
            d == unsigned_digits(s@),
            forall|k: int| 0 <= k < i - start ==> '0' <= #[trigger] d[k] && d[k] <= '9',
        decreases v.len() - i,
    {
        assert(d[i - start] == v@[i as int]);
        if !('0' <= v[i] && v[i] <= '9') {
            proof {
                if is_unsigned_text(s@) {
                    assert(is_digit(unsigned_digits(s@)[i - start]));
                }
            }
            return None;
        }
        i += 1;
    }
    assert(is_unsigned_text(s@));
    let mut n: u64 = 0;
    let mut i: usize = start;
    while i < v.len()
        invariant
            start <= i <= v.len(),
            start < v.len(),
            d == v@.subrange(start as int, v@.len() as int),
            v@ == s@,
            d == unsigned_digits(s@),
            forall|k: int| 0 <= k < d.len() ==> '0' <= #[trigger] d[k] && d[k] <= '9',
            n == digits_value(d.take(i - start)),
            n <= max,
        decreases v.len() - i,
    {
        let c = v[i];
        assert(d[i - start] == c);
        let digit = (c as u64) - ('0' as u64);
        assert(d.take(i - start + 1).drop_last() =~= d.take(i - start));
        assert(d.take(i - start + 1).last() == c);
        let next: u128 = (n as u128) * 10 + (digit as u128);
        assert(digits_value(d.take(i - start + 1)) == next as nat);
        if next > (max as u128) {
            proof {
                lemma_digits_grow(d, (i - start + 1) as int);
                assert(unsigned_value(s@) == digits_value(d));
            }
            return None;
        }
        n = next as u64;
        i += 1;
    }
    assert(d.take(v.len() - start) =~= d);
    Some(n)
}

/// Once a prefix of the digits exceeds a bound, the whole does too.
proof fn lemma_digits_grow(d: Seq<char>, k: int)
    requires
        0 <= k <= d.len(),
        forall|j: int| 0 <= j < d.len() ==> '0' <= #[trigger] d[j] && d[j] <= '9',
    ensures
        digits_value(d) >= digits_value(d.take(k)),
    decreases d.len() - k,
{
    if k < d.len() {
        assert(d.take(k + 1).drop_last() =~= d.take(k));
        lemma_digits_grow(d, k + 1);
    } else {
        assert(d.take(k) =~= d);
    }
}

// ---------------------------------------------------------------------------
// Subcommands
// ---------------------------------------------------------------------------

/// What the command line asks for.
pub enum CliCommand {
    /// `align <path>`
    Align(String),
    /// `unalign <path>`
    Unalign(String),
    /// `infer <path>`
    Infer(String),
    /// `stats <path> <column>`
    Stats(String, String),
    /// Anything else: print the usage.
    Usage,
}

/// Which subcommand the arguments (the program name first, the streaming
/// flags taken out) name.
pub fn cli_command(argv: &Vec<String>) -> (c: CliCommand)
    ensures
        c matches CliCommand::Align(p) ==> argv@.len() == 3 && argv@[1]@ == "align"@ && p@ == argv@[2]@,
        c matches CliCommand::Unalign(p) ==> argv@.len() == 3 && argv@[1]@ == "unalign"@ && p@ == argv@[2]@,
        c matches CliCommand::Infer(p) ==> argv@.len() == 3 && argv@[1]@ == "infer"@ && p@ == argv@[2]@,
        c matches CliCommand::Stats(p, col) ==> argv@.len() == 4 && argv@[1]@ == "stats"@ && p@ == argv@[2]@
            && col@ == argv@[3]@,
        c is Usage <==> !((argv@.len() == 3 && (argv@[1]@ == "align"@ || argv@[1]@ == "unalign"@
            || argv@[1]@ == "infer"@)) || (argv@.len() == 4 && argv@[1]@ == "stats"@)),
{
    if argv.len() == 3 {
        if is_text(argv[1].as_str(), "align") {
            return CliCommand::Align(argv[2].clone());
        } else if is_text(argv[1].as_str(), "unalign") {
            return CliCommand::Unalign(argv[2].clone());
        } else if is_text(argv[1].as_str(), "infer") {
            return CliCommand::Infer(argv[2].clone());
        }
    } else if argv.len() == 4 {
        if is_text(argv[1].as_str(), "stats") {
            return CliCommand::Stats(argv[2].clone(), argv[3].clone());
        }
    }
    CliCommand::Usage
}

} // verus!
