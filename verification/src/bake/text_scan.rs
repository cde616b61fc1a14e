//! Cutting text into lines, tokens and numbers.

use crate::strings::{char_is_digit, char_is_white_space, is_digit, is_white_space};
use vstd::prelude::*;

verus! {

/// Pieces of text, each as its characters.
pub open spec fn pieces(v: Seq<Vec<char>>) -> Seq<Seq<char>> {
    Seq::new(v.len(), |i: int| v[i]@)
}

/// `v` with `c` put at the end of its last piece.
pub open spec fn extend_last(v: Seq<Seq<char>>, c: char) -> Seq<Seq<char>> {
    v.drop_last().push(v.last().push(c))
}

/// The pieces of `s` between the separators; one more than there are separators.
pub open spec fn split_at(s: Seq<char>, sep: char) -> Seq<Seq<char>>
    decreases s.len(),
{
    if s.len() == 0 {
        seq![Seq::empty()]
    } else if s.last() == sep {
        split_at(s.drop_last(), sep).push(Seq::empty())
    } else {
        extend_last(split_at(s.drop_last(), sep), s.last())
    }
}

/// The maximal runs of characters that are no white space.
pub open spec fn tokens_of(s: Seq<char>) -> Seq<Seq<char>>
    decreases s.len(),
{
    if s.len() == 0 {
        Seq::empty()
    } else if is_white_space(s.last()) {
        tokens_of(s.drop_last())
    } else if s.len() >= 2 && !is_white_space(s[s.len() - 2]) {
        extend_last(tokens_of(s.drop_last()), s.last())
    } else {
        tokens_of(s.drop_last()).push(seq![s.last()])
    }
}

/// Put `c` at the end of the last piece.
fn push_last(v: &mut Vec<Vec<char>>, c: char)
    requires
        old(v).len() > 0,
    ensures
        pieces(final(v)@) == extend_last(pieces(old(v)@), c),
{
    let ghost before = v@;
    match v.pop() {
        Some(mut last) => {
            let ghost t = last@;
            last.push(c);
            v.push(last);
            assert(pieces(v@) =~= extend_last(pieces(before), c));
        },
        None => {},
    }
}

/// Cut `s` at every `sep`.
pub fn split(s: &[char], sep: char) -> (r: Vec<Vec<char>>)
    ensures
        pieces(r@) == split_at(s@, sep),
        r.len() > 0,
{
    let mut out: Vec<Vec<char>> = Vec::new();
    out.push(Vec::new());
    let mut i: usize = 0;
    assert(s@.take(0) =~= Seq::empty());
    assert(pieces(out@) =~= split_at(s@.take(0), sep));
    while i < s.len()
        invariant
            i <= s.len(),
            out.len() > 0,
            pieces(out@) == split_at(s@.take(i as int), sep),
        decreases s.len() - i,
    {
        proof {
            assert(s@.take(i + 1).drop_last() =~= s@.take(i as int));
            assert(s@.take(i + 1).last() == s@[i as int]);
        }
        let ghost before = out@;
        if s[i] == sep {
            let fresh: Vec<char> = Vec::new();
            assert(fresh@ =~= Seq::empty());
            out.push(fresh);
            assert(pieces(out@) =~= pieces(before).push(Seq::empty()));
        } else {
            push_last(&mut out, s[i]);
            assert(pieces(out@).len() == out.len());
        }
        i = i + 1;
    }
    assert(s@.take(s.len() as int) =~= s@);
    out
}

proof fn lemma_tokens_nonempty(s: Seq<char>)
    requires
        s.len() > 0,
        !is_white_space(s.last()),
    ensures
        tokens_of(s).len() > 0,
    decreases s.len(),
{
    if s.len() >= 2 && !is_white_space(s[s.len() - 2]) {
        lemma_tokens_nonempty(s.drop_last());
    }
}

/// Cut `s` at white space.
pub fn tokens(s: &[char]) -> (r: Vec<Vec<char>>)
    ensures
        pieces(r@) == tokens_of(s@),
{
    let mut out: Vec<Vec<char>> = Vec::new();
    let mut open: bool = false;
    let mut i: usize = 0;
    assert(s@.take(0) =~= Seq::empty());
    assert(pieces(out@) =~= tokens_of(s@.take(0)));
    while i < s.len()
        invariant
            i <= s.len(),
            open == (i > 0 && !is_white_space(s@[i - 1])),
            pieces(out@) == tokens_of(s@.take(i as int)),
        decreases s.len() - i,
    {
        let ghost part = s@.take(i + 1);
        proof {
            assert(part.drop_last() =~= s@.take(i as int));
            assert(part.last() == s@[i as int]);
            if i > 0 {
                assert(part[part.len() - 2] == s@[i - 1]);
            }
            if open {
                lemma_tokens_nonempty(s@.take(i as int));
                assert(pieces(out@).len() == out.len());
            }
        }
        let ghost before = out@;
        let c: char = s[i];
        if char_is_white_space(c) {
            open = false;
        } else if open {
            push_last(&mut out, c);
        } else {
            let mut fresh: Vec<char> = Vec::new();
            fresh.push(c);
            assert(fresh@ =~= seq![c]);
            out.push(fresh);
            open = true;
            assert(pieces(out@) =~= pieces(before).push(seq![c]));
        }
        i = i + 1;
    }
    assert(s@.take(s.len() as int) =~= s@);
    out
}

/// Nothing but digits.
pub open spec fn all_digits(s: Seq<char>) -> bool {
    forall|i: int| 0 <= i < s.len() ==> is_digit(#[trigger] s[i])
}

/// The number that digits write.
pub open spec fn digits_value(s: Seq<char>) -> int
    decreases s.len(),
{
    if s.len() == 0 {
        0
    } else {
        10 * digits_value(s.drop_last()) + (s.last() as int - '0' as int)
    }
}

/// The digits behind an optional sign, and whether the sign is a minus.
pub open spec fn signed_digits(s: Seq<char>) -> (bool, Seq<char>) {
    if s.len() > 0 && s[0] == '-' {
        (true, s.skip(1))
    } else if s.len() > 0 && s[0] == '+' {
        (false, s.skip(1))
    } else {
        (false, s)
    }
}

/// The integer that a text writes: an optional sign and at least one digit, within
/// the range of an `i32`.
pub open spec fn int_of(s: Seq<char>) -> Option<i32> {
    let (negative, digits) = signed_digits(s);
    let v = if negative {
        -digits_value(digits)
    } else {
        digits_value(digits)
    };
    if digits.len() == 0 || !all_digits(digits) || v < i32::MIN || v > i32::MAX {
        None
    } else {
        Some(v as i32)
    }
}

/// Read an integer: an optional sign and at least one digit, within the range of an
/// `i32`.
pub fn parse_int(s: &[char]) -> (r: Option<i32>)
    ensures
        r == int_of(s@),
{
    let negative: bool = s.len() > 0 && s[0] == '-';
    let start: usize = if s.len() > 0 && (s[0] == '-' || s[0] == '+') {
        1
    } else {
        0
    };
    let ghost digits = signed_digits(s@).1;
    assert(digits =~= s@.skip(start as int));
    if start >= s.len() {
        return None;
    }
    let mut acc: i64 = 0;
    let mut big: bool = false;
    let mut i: usize = start;
    assert(digits.take(0) =~= Seq::empty());
    while i < s.len()
        invariant
            start <= i <= s.len(),
            digits == s@.skip(start as int),
            digits.len() > 0,
            (negative, digits) == signed_digits(s@),
            forall|k: int| 0 <= k < i - start ==> is_digit(#[trigger] digits[k]),
            0 <= acc <= 0x8000_0000,
            !big ==> acc == digits_value(digits.take(i - start)),
            big ==> digits_value(digits.take(i - start)) > 0x8000_0000,
        decreases s.len() - i,
    {
        let c: char = s[i];
        assert(c == digits[i - start]);
        if !char_is_digit(c) {
            assert(!all_digits(digits));
            return None;
        }
        proof {
            let next = digits.take(i - start + 1);
            assert(next.drop_last() =~= digits.take(i - start));
            assert(next.last() == c);
        }
        if !big {
            let d: i64 = (c as u32 - '0' as u32) as i64;
            let v: i64 = acc * 10 + d;
            if v > 0x8000_0000 {
                big = true;
            } else {
                acc = v;
            }
        }
        i = i + 1;
    }
    assert(digits.take(digits.len() as int) =~= digits);
    assert(all_digits(digits));
    if big {
        return None;
    }
    if negative {
        Some((0 - acc) as i32)
    } else if acc > 0x7fff_ffff {
        None
    } else {
        Some(acc as i32)
    }
}

} // verus!
