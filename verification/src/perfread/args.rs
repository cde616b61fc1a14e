//! The reader's command line.

use crate::strings::{chars_of, push_text, same_text, text};
use vstd::prelude::*;

verus! {

pub const NO_DIGITS: &'static str = "cannot parse integer from empty string";

pub const BAD_DIGIT: &'static str = "invalid digit found in string";

pub const TOO_LARGE: &'static str = "number too large to fit in target type";

/// The value of a digit below `radix`, letters in either case.
pub open spec fn digit_of(c: char, radix: int) -> Option<int> {
    let d = if '0' <= c <= '9' {
        c as int - '0' as int
    } else if 'a' <= c <= 'z' {
        c as int - 'a' as int + 10
    } else if 'A' <= c <= 'Z' {
        c as int - 'A' as int + 10
    } else {
        radix
    };
    if d < radix {
        Some(d)
    } else {
        None
    }
}

/// The number that the digits from `k` on write behind those that wrote `acc`, or
/// what goes wrong first.
pub open spec fn digits_from(s: Seq<char>, k: int, radix: int, max: int, acc: int) -> Result<
    int,
    Seq<char>,
>
    decreases s.len() - k,
{
    if k >= s.len() {
        Ok(acc)
    } else {
        match digit_of(s[k], radix) {
            None => Err(BAD_DIGIT@),
            Some(d) => if acc * radix + d > max {
                Err(TOO_LARGE@)
            } else {
                digits_from(s, k + 1, radix, max, acc * radix + d)
            },
        }
    }
}

/// The number up to `max` that a text writes: an optional plus sign and at least one
/// digit.
pub open spec fn number_of(s: Seq<char>, radix: int, max: int) -> Result<int, Seq<char>> {
    if s.len() == 0 {
        Err(NO_DIGITS@)
    } else if s.len() == 1 && s[0] == '+' {
        Err(BAD_DIGIT@)
    } else if s[0] == '+' {
        digits_from(s, 1, radix, max, 0)
    } else {
        digits_from(s, 0, radix, max, 0)
    }
}

/// Read a number up to `max` in the given radix.
pub fn parse_number(s: &[char], radix: u32, max: u64) -> (r: Result<u64, String>)
    requires
        2 <= radix <= 36,
        radix <= max,
    ensures
        match r {
            Ok(v) => number_of(s@, radix as int, max as int) == Ok::<int, Seq<char>>(v as int),
            Err(e) => number_of(s@, radix as int, max as int) == Err::<int, Seq<char>>(e@),
        },
        r matches Ok(v) ==> v <= max,
{
    if s.len() == 0 {
        return Err(text(NO_DIGITS));
    }
    if s.len() == 1 && s[0] == '+' {
        return Err(text(BAD_DIGIT));
    }
    let mut k: usize = if s[0] == '+' {
        1
    } else {
        0
    };
    let mut acc: u64 = 0;
    while k < s.len()
        invariant
            k <= s.len(),
            2 <= radix <= 36,
            acc <= max,
            number_of(s@, radix as int, max as int) == digits_from(
                s@,
                k as int,
                radix as int,
                max as int,
                acc as int,
            ),
        decreases s.len() - k,
    {
        let c: char = s[k];
        let d: u32 = if '0' <= c && c <= '9' {
            c as u32 - '0' as u32
        } else if 'a' <= c && c <= 'z' {
            c as u32 - 'a' as u32 + 10
        } else if 'A' <= c && c <= 'Z' {
            c as u32 - 'A' as u32 + 10
        } else {
            radix
        };
        if d >= radix {
            return Err(text(BAD_DIGIT));
        }
        assert(0 <= acc * radix <= u64::MAX * 36) by (nonlinear_arith)
            requires
                acc <= u64::MAX,
                0 <= radix <= 36,
        ;
        let v: u128 = acc as u128 * radix as u128 + d as u128;
        if v > max as u128 {
            return Err(text(TOO_LARGE));
        }
        acc = v as u64;
        k = k + 1;
    }
    Ok(acc)
}

/// What the command line asks for.
#[derive(Debug, Clone, Copy, PartialEq, Eq, Structural)]
pub struct Opts {
    pub port: u16,
    /// Where the record is, if that is known.
    pub addr: Option<u32>,
    pub connect_timeout_ms: u64,
    /// How long the program runs before it is read; 0 to read it as it is.
    pub run_ms: u64,
}

/// The options read so far.
#[derive(Clone, Copy)]
pub struct Partial {
    pub port: Option<u16>,
    pub addr: Option<u32>,
    pub connect_timeout_ms: u64,
    pub run_ms: u64,
}

/// A number as it is written behind an optional `0x`.
pub open spec fn without_prefix(s: Seq<char>) -> Seq<char> {
    if s.len() >= 2 && s[0] == '0' && s[1] == 'x' {
        s.skip(2)
    } else {
        s
    }
}

/// `p` with the value of one option, or what is wrong with the value.
pub open spec fn with_option(p: Partial, name: Seq<char>, value: Seq<char>) -> Result<
    Partial,
    Seq<char>,
> {
    if name == "--port"@ {
        match number_of(value, 10, 0xffff) {
            Ok(v) => Ok(Partial { port: Some(v as u16), ..p }),
            Err(e) => Err("--port: "@ + e),
        }
    } else if name == "--addr"@ {
        match number_of(without_prefix(value), 16, 0xffff_ffff) {
            Ok(v) => Ok(Partial { addr: Some(v as u32), ..p }),
            Err(e) => Err("--addr: "@ + e),
        }
    } else if name == "--connect-timeout"@ {
        match number_of(value, 10, u64::MAX as int) {
            Ok(v) => Ok(Partial { connect_timeout_ms: v as u64, ..p }),
            Err(e) => Err("--connect-timeout: "@ + e),
        }
    } else {
        match number_of(value, 10, u64::MAX as int) {
            Ok(v) => Ok(Partial { run_ms: v as u64, ..p }),
            Err(e) => Err("--run-ms: "@ + e),
        }
    }
}

/// What is reported where an option's value is missing; none for what is no option.
pub open spec fn missing_value(name: Seq<char>) -> Option<Seq<char>> {
    if name == "--port"@ {
        Some("--port needs a value"@)
    } else if name == "--addr"@ {
        Some("--addr needs a value"@)
    } else if name == "--connect-timeout"@ {
        Some("--connect-timeout needs a value (ms)"@)
    } else if name == "--run-ms"@ {
        Some("--run-ms needs a value (ms)"@)
    } else {
        None
    }
}

/// The options from argument `k` on, on top of `p`.
pub open spec fn options_from(args: Seq<String>, k: int, p: Partial) -> Result<Partial, Seq<char>>
    decreases args.len() - k,
{
    if k >= args.len() {
        Ok(p)
    } else {
        match missing_value(args[k]@) {
            None => Err("unknown argument "@ + args[k]@),
            Some(missing) => if k + 1 >= args.len() {
                Err(missing)
            } else {
                match with_option(p, args[k]@, args[k + 1]@) {
                    Ok(q) => options_from(args, k + 2, q),
                    Err(e) => Err(e),
                }
            },
        }
    }
}

/// What holds where no option says otherwise.
pub open spec fn no_options() -> Partial {
    Partial { port: None, addr: None, connect_timeout_ms: 2000, run_ms: 0 }
}

/// The whole command line, the program's own name left out.
pub open spec fn options_of(args: Seq<String>) -> Result<Opts, Seq<char>> {
    match options_from(args, 0, no_options()) {
        Err(e) => Err(e),
        Ok(p) => match p.port {
            None => Err("--port is required"@),
            Some(port) => Ok(
                Opts {
                    port,
                    addr: p.addr,
                    connect_timeout_ms: p.connect_timeout_ms,
                    run_ms: p.run_ms,
                },
            ),
        },
    }
}

fn prefixed(head: &str, tail: &str) -> (r: String)
    ensures
        r@ == head@ + tail@,
{
    let mut out: String = text(head);
    push_text(&mut out, tail);
    out
}

fn apply(p: Partial, name: &str, value: &str) -> (r: Result<Partial, String>)
    requires
        missing_value(name@) is Some,
    ensures
        match r {
            Ok(q) => with_option(p, name@, value@) == Ok::<Partial, Seq<char>>(q),
            Err(e) => with_option(p, name@, value@) == Err::<Partial, Seq<char>>(e@),
        },
{
    let v: Vec<char> = chars_of(value);
    if same_text(name, "--port") {
        match parse_number(v.as_slice(), 10, 0xffff) {
            Ok(n) => Ok(Partial { port: Some(n as u16), ..p }),
            Err(e) => Err(prefixed("--port: ", &e)),
        }
    } else if same_text(name, "--addr") {
        let mut digits: Vec<char> = Vec::new();
        let mut i: usize = if v.len() >= 2 && v[0] == '0' && v[1] == 'x' {
            2
        } else {
            0
        };
        let ghost from = i as int;
        while i < v.len()
            invariant
                0 <= from <= i <= v.len(),
                digits@ == v@.subrange(from, i as int),
            decreases v.len() - i,
        {
            digits.push(v[i]);
            assert(digits@ =~= v@.subrange(from, i + 1));
            i = i + 1;
        }
        assert(digits@ =~= without_prefix(value@));
        match parse_number(digits.as_slice(), 16, 0xffff_ffff) {
            Ok(n) => Ok(Partial { addr: Some(n as u32), ..p }),
            Err(e) => Err(prefixed("--addr: ", &e)),
        }
    } else if same_text(name, "--connect-timeout") {
        match parse_number(v.as_slice(), 10, u64::MAX) {
            Ok(n) => Ok(Partial { connect_timeout_ms: n, ..p }),
            Err(e) => Err(prefixed("--connect-timeout: ", &e)),
        }
    } else {
        match parse_number(v.as_slice(), 10, u64::MAX) {
            Ok(n) => Ok(Partial { run_ms: n, ..p }),
            Err(e) => Err(prefixed("--run-ms: ", &e)),
        }
    }
}

fn missing(name: &str) -> (r: Option<String>)
    ensures
        match r {
            Some(m) => missing_value(name@) == Some(m@),
            None => missing_value(name@) is None,
        },
{
    if same_text(name, "--port") {
        Some(text("--port needs a value"))
    } else if same_text(name, "--addr") {
        Some(text("--addr needs a value"))
    } else if same_text(name, "--connect-timeout") {
        Some(text("--connect-timeout needs a value (ms)"))
    } else if same_text(name, "--run-ms") {
        Some(text("--run-ms needs a value (ms)"))
    } else {
        None
    }
}

/// Read the command line, the program's own name left out. A later option overrides
/// an earlier one.
pub fn parse_args(args: &[String]) -> (r: Result<Opts, String>)
    ensures
        match r {
            Ok(o) => options_of(args@) == Ok::<Opts, Seq<char>>(o),
            Err(e) => options_of(args@) == Err::<Opts, Seq<char>>(e@),
        },
{
    let mut p: Partial = Partial { port: None, addr: None, connect_timeout_ms: 2000, run_ms: 0 };
    let mut k: usize = 0;
    while k < args.len()
        invariant
            k <= args.len(),
            options_from(args@, 0, no_options()) == options_from(args@, k as int, p),
        decreases args.len() - k,
    {
        match missing(&args[k]) {
            None => {
                return Err(prefixed("unknown argument ", &args[k]));
            },
            Some(m) => {
                if k == args.len() - 1 {
                    return Err(m);
                }
                match apply(p, &args[k], &args[k + 1]) {
                    Ok(q) => {
                        p = q;
                    },
                    Err(e) => {
                        return Err(e);
                    },
                }
            },
        }
        k = k + 2;
    }
    match p.port {
        None => Err(text("--port is required")),
        Some(port) => Ok(
            Opts {
                port,
                addr: p.addr,
                connect_timeout_ms: p.connect_timeout_ms,
                run_ms: p.run_ms,
            },
        ),
    }
}

/// The line printed below a refused command line.
pub const USAGE: &'static str =
    "usage: perfread --port PORT [--addr 0xHEX] [--connect-timeout MS] [--run-ms MS]";

} // verus!
