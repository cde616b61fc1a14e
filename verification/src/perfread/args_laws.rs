//! What numbers on a command line come to, and what one more option changes.

use crate::perfread::args::{
    digit_of, digits_from, missing_value, no_options, number_of, options_from, parse_args,
    parse_number, with_option, Opts, Partial,
};
use vstd::prelude::*;

verus! {

/// The value of a digit: the ten digits, then the letters in either case; none is -1.
pub open spec fn digit(c: char) -> int {
    if '0' <= c <= '9' {
        c as int - '0' as int
    } else if 'a' <= c <= 'z' {
        c as int - 'a' as int + 10
    } else if 'A' <= c <= 'Z' {
        c as int - 'A' as int + 10
    } else {
        -1
    }
}

/// The text is made of digits below the radix.
pub open spec fn all_digits(s: Seq<char>, radix: int) -> bool {
    forall|i: int| 0 <= i < s.len() ==> 0 <= digit(#[trigger] s[i]) < radix
}

/// The number that digits write, the last one worth one.
pub open spec fn positional(s: Seq<char>, radix: int) -> int
    decreases s.len(),
{
    if s.len() == 0 {
        0
    } else {
        radix * positional(s.drop_last(), radix) + digit(s.last())
    }
}

proof fn lemma_positional(s: Seq<char>, radix: int, k: int)
    requires
        2 <= radix,
        all_digits(s, radix),
        0 <= k <= s.len(),
    ensures
        0 <= positional(s.take(k), radix) <= positional(s, radix),
    decreases s.len(),
{
    if s.len() > 0 {
        let init = s.drop_last();
        assert forall|i: int| 0 <= i < init.len() implies 0 <= digit(#[trigger] init[i]) < radix by {
            assert(init[i] == s[i]);
        }
        assert(0 <= digit(s[s.len() - 1]) < radix);
        if k == s.len() {
            assert(s.take(k) =~= s);
            lemma_positional(init, radix, 0);
            assert(init.take(0) =~= Seq::<char>::empty());
        } else {
            lemma_positional(init, radix, k);
            assert(init.take(k) =~= s.take(k));
        }
        let p = positional(init, radix);
        assert(radix * p >= p && radix * p >= 0) by (nonlinear_arith)
            requires
                2 <= radix,
                0 <= p,
        ;
    } else {
        assert(s.take(k) =~= s);
    }
}

proof fn lemma_digits(s: Seq<char>, k: int, radix: int, max: int, lead: int)
    requires
        2 <= radix <= 36,
        0 <= lead <= k <= s.len(),
        all_digits(s.skip(lead), radix),
        positional(s.subrange(lead, k), radix) <= max,
    ensures
        positional(s.skip(lead), radix) <= max ==> digits_from(
            s,
            k,
            radix,
            max,
            positional(s.subrange(lead, k), radix),
        ) == Ok::<int, Seq<char>>(positional(s.skip(lead), radix)),
        positional(s.skip(lead), radix) > max ==> digits_from(
            s,
            k,
            radix,
            max,
            positional(s.subrange(lead, k), radix),
        ) is Err,
    decreases s.len() - k,
{
    let acc = positional(s.subrange(lead, k), radix);
    if k == s.len() {
        assert(s.subrange(lead, k) =~= s.skip(lead));
    } else {
        let c = s[k];
        assert(s.skip(lead)[k - lead] == c);
        assert(0 <= digit(c) < radix);
        assert(digit_of(c, radix) == Some(digit(c)));
        let next = s.subrange(lead, k + 1);
        assert(next.drop_last() =~= s.subrange(lead, k));
        assert(next.last() == c);
        assert(positional(next, radix) == radix * acc + digit(c));
        assert(radix * acc == acc * radix) by (nonlinear_arith);
        lemma_positional(s.skip(lead), radix, k + 1 - lead);
        assert(s.skip(lead).take(k + 1 - lead) =~= next);
        if positional(next, radix) <= max {
            lemma_digits(s, k + 1, radix, max, lead);
        }
    }
}

/// Digits are read as the number they write in their radix, with or without a plus sign
/// in front, as long as it is not above the limit; above it they are refused.
pub proof fn law_number_is_its_digits(
    s: &[char],
    radix: u32,
    max: u64,
    r: Result<u64, String>,
    plus: bool,
)
    requires
        2 <= radix <= 36,
        radix <= max,
        call_ensures(parse_number, (s, radix, max), r),
        ({
            let lead: int = if plus {
                1
            } else {
                0
            };
            &&& s@.len() > lead
            &&& plus ==> s@[0] == '+'
            &&& all_digits(s@.skip(lead), radix as int)
        }),
    ensures
        ({
            let n = positional(
                s@.skip(
                    if plus {
                        1
                    } else {
                        0
                    },
                ),
                radix as int,
            );
            &&& n <= max ==> r == Ok::<u64, String>(n as u64)
            &&& n > max ==> r is Err
        }),
{
    let lead: int = if plus {
        1
    } else {
        0
    };
    if !plus {
        assert(s@.skip(0)[0] == s@[0]);
        assert(0 <= digit(s@[0]));
    }
    assert(s@.subrange(lead, lead) =~= Seq::<char>::empty());
    lemma_digits(s@, lead, radix as int, max as int, lead);
    lemma_positional(s@.skip(lead), radix as int, 0);
    if lead == 0 {
        assert(number_of(s@, radix as int, max as int) == digits_from(
            s@,
            0,
            radix as int,
            max as int,
            0,
        ));
    }
}

/// The command line with more behind it.
pub open spec fn extends(args: Seq<String>, more: Seq<String>) -> bool {
    args.len() <= more.len() && forall|i: int| 0 <= i < args.len() ==> #[trigger] more[i] == args[i]
}

proof fn lemma_options_on(args: Seq<String>, more: Seq<String>, k: int, p: Partial)
    requires
        extends(args, more),
        0 <= k <= args.len(),
        options_from(args, k, p) is Ok,
    ensures
        options_from(more, k, p) == options_from(
            more,
            args.len() as int,
            options_from(args, k, p)->Ok_0,
        ),
    decreases args.len() - k,
{
    if k < args.len() {
        assert(more[k] == args[k]);
        assert(more[k + 1] == args[k + 1]);
        lemma_options_on(args, more, k + 2, with_option(p, args[k]@, args[k + 1]@)->Ok_0);
    }
}

proof fn lemma_option_names()
    ensures
        "--port"@ != "--addr"@,
        "--port"@ != "--connect-timeout"@,
        "--port"@ != "--run-ms"@,
        "--addr"@ != "--connect-timeout"@,
        "--addr"@ != "--run-ms"@,
        "--connect-timeout"@ != "--run-ms"@,
{
    reveal_strlit("--port");
    reveal_strlit("--addr");
    reveal_strlit("--connect-timeout");
    reveal_strlit("--run-ms");
    assert("--port"@.len() == 6 && "--addr"@.len() == 6);
    assert("--connect-timeout"@.len() == 17 && "--run-ms"@.len() == 8);
    assert("--port"@[2] != "--addr"@[2]);
}

/// One more option with digits behind it sets what it is for, and nothing else: the
/// port, the address, written in hexadecimal with or without its prefix, or one of the
/// two times.
pub proof fn law_option_sets_its_value(
    args: &[String],
    a: Opts,
    more: &[String],
    r: Result<Opts, String>,
    digits: Seq<char>,
)
    requires
        call_ensures(parse_args, (args,), Ok::<Opts, String>(a)),
        call_ensures(parse_args, (more,), r),
        extends(args@, more@),
        more@.len() == args@.len() + 2,
        digits.len() > 0,
    ensures
        ({
            let name = more@[args@.len() as int]@;
            let value = more@[args@.len() as int + 1]@;
            let n = positional(digits, 10);
            let h = positional(digits, 16);
            &&& name == "--port"@ && value == digits && all_digits(digits, 10) && n <= 0xffff ==> r
                == Ok::<Opts, String>(Opts { port: n as u16, ..a })
            &&& name == "--addr"@ && (value == seq!['0', 'x'] + digits || (value == digits && (
            digits.len() < 2 || digits[1] != 'x'))) && all_digits(digits, 16) && h <= 0xffff_ffff
                ==> r == Ok::<Opts, String>(Opts { addr: Some(h as u32), ..a })
            &&& name == "--connect-timeout"@ && value == digits && all_digits(digits, 10) && n
                <= u64::MAX ==> r == Ok::<Opts, String>(Opts { connect_timeout_ms: n as u64, ..a })
            &&& name == "--run-ms"@ && value == digits && all_digits(digits, 10) && n <= u64::MAX
                ==> r == Ok::<Opts, String>(Opts { run_ms: n as u64, ..a })
        }),
{
    let len = args@.len() as int;
    let name = more@[len]@;
    let value = more@[len + 1]@;
    lemma_option_names();
    lemma_options_on(args@, more@, 0, no_options());
    let p = options_from(args@, 0, no_options())->Ok_0;
    lemma_whole(digits, 10, 0xffff);
    lemma_whole(digits, 10, u64::MAX as int);
    lemma_whole(digits, 16, 0xffff_ffff);
    if name == "--addr"@ && value == seq!['0', 'x'] + digits {
        assert(value[0] == '0' && value[1] == 'x');
        assert(value.skip(2) =~= digits);
    }
    let next = with_option(p, name, value);
    if missing_value(name) is Some && next is Ok {
        let q = next->Ok_0;
        assert(options_from(more@, len + 2, q) == Ok::<Partial, Seq<char>>(q));
        assert(options_from(more@, len, p) == options_from(more@, len + 2, q));
        assert(options_from(more@, 0, no_options()) == Ok::<Partial, Seq<char>>(q));
    }
}

proof fn lemma_whole(s: Seq<char>, radix: int, max: int)
    requires
        2 <= radix <= 36,
        s.len() > 0,
        0 <= max,
    ensures
        all_digits(s, radix) && positional(s, radix) <= max ==> number_of(s, radix, max) == Ok::<
            int,
            Seq<char>,
        >(positional(s, radix)),
        all_digits(s, radix) ==> 0 <= positional(s, radix),
{
    if all_digits(s, radix) {
        assert(0 <= digit(s[0]));
        assert(s.skip(0) =~= s);
        assert(s.subrange(0, 0) =~= Seq::<char>::empty());
        lemma_digits(s, 0, radix, max, 0);
        lemma_positional(s, radix, 0);
    }
}

} // verus!
