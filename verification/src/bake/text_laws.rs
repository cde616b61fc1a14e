//! What cutting text means: pieces join back into the text, and tokens are its words.

use crate::bake::text_scan::{
    all_digits, digits_value, extend_last, int_of, parse_int, pieces, split, split_at, tokens,
    tokens_of,
};
use crate::strings::{decimal, digit_char, is_digit, is_white_space, to_decimal};
use vstd::prelude::*;

verus! {

/// The pieces with the separator between them.
pub open spec fn joined_by(v: Seq<Seq<char>>, sep: char) -> Seq<char>
    decreases v.len(),
{
    if v.len() == 0 {
        Seq::empty()
    } else if v.len() == 1 {
        v[0]
    } else {
        joined_by(v.drop_last(), sep) + seq![sep] + v.last()
    }
}

/// `c` does not stand in `s`.
pub open spec fn lacks(s: Seq<char>, c: char) -> bool {
    forall|i: int| 0 <= i < s.len() ==> #[trigger] s[i] != c
}

proof fn lemma_split_joins(s: Seq<char>, sep: char)
    ensures
        split_at(s, sep).len() > 0,
        joined_by(split_at(s, sep), sep) == s,
        forall|i: int| 0 <= i < split_at(s, sep).len() ==> lacks(#[trigger] split_at(s, sep)[i], sep),
    decreases s.len(),
{
    let v = split_at(s, sep);
    if s.len() == 0 {
        assert(v[0] =~= s);
    } else {
        let init = s.drop_last();
        let w = split_at(init, sep);
        lemma_split_joins(init, sep);
        assert(s =~= init.push(s.last()));
        if s.last() == sep {
            assert(v.drop_last() =~= w);
            assert(joined_by(v, sep) =~= init + seq![sep] + Seq::empty());
        } else {
            assert(v == extend_last(w, s.last()));
            assert(v.drop_last() =~= w.drop_last());
            assert(v.last() == w.last().push(s.last()));
            if v.len() == 1 {
                assert(joined_by(v, sep) =~= s);
            } else {
                assert(joined_by(v, sep) =~= joined_by(w, sep).push(s.last()));
            }
            assert forall|i: int| 0 <= i < v.len() implies lacks(#[trigger] v[i], sep) by {
                assert(lacks(w[i], sep));
            }
        }
    }
}

/// Cutting a text at a separator gives pieces without it that join back into the
/// text.
pub proof fn law_split_joins_back(s: &[char], sep: char, r: Vec<Vec<char>>)
    requires
        call_ensures(split, (s, sep), r),
    ensures
        r@.len() > 0,
        joined_by(pieces(r@), sep) == s@,
        forall|i: int| 0 <= i < r@.len() ==> lacks((#[trigger] r@[i])@, sep),
{
    lemma_split_joins(s@, sep);
    assert forall|i: int| 0 <= i < r@.len() implies lacks((#[trigger] r@[i])@, sep) by {
        assert(pieces(r@)[i] == r@[i]@);
    }
}

/// A text without the separator is one more piece.
pub proof fn lemma_split_push(s: Seq<char>, t: Seq<char>, sep: char)
    requires
        lacks(t, sep),
    ensures
        split_at(s + seq![sep] + t, sep) == split_at(s, sep).push(t),
    decreases t.len(),
{
    let all = s + seq![sep] + t;
    if t.len() == 0 {
        assert(all.drop_last() =~= s);
        assert(t =~= Seq::empty());
    } else {
        lemma_split_push(s, t.drop_last(), sep);
        assert(t[t.len() - 1] != sep);
        assert(all.drop_last() =~= s + seq![sep] + t.drop_last());
        assert(t.drop_last().push(t.last()) =~= t);
        let w = split_at(all.drop_last(), sep);
        assert(extend_last(w, t.last()) =~= split_at(s, sep).push(t));
    }
}

/// A text without the separator is one piece.
pub proof fn lemma_split_whole(t: Seq<char>, sep: char)
    requires
        lacks(t, sep),
    ensures
        split_at(t, sep) == seq![t],
    decreases t.len(),
{
    if t.len() == 0 {
        assert(t =~= Seq::empty());
    } else {
        lemma_split_whole(t.drop_last(), sep);
        assert(t[t.len() - 1] != sep);
        assert(t.drop_last().push(t.last()) =~= t);
        assert(extend_last(seq![t.drop_last()], t.last()) =~= seq![t]);
    }
}

/// A word: not empty, and without white space.
pub open spec fn is_word(w: Seq<char>) -> bool {
    w.len() > 0 && forall|i: int| 0 <= i < w.len() ==> !is_white_space(#[trigger] w[i])
}

/// Words with a space between them.
pub open spec fn spaced(words: Seq<Seq<char>>) -> Seq<char> {
    joined_by(words, ' ')
}

proof fn lemma_tokens_push(s: Seq<char>, w: Seq<char>)
    requires
        is_word(w),
        s.len() == 0 || is_white_space(s.last()),
    ensures
        tokens_of(s + w) == tokens_of(s).push(w),
    decreases w.len(),
{
    let all = s + w;
    assert(all.last() == w.last() && !is_white_space(w[w.len() - 1]));
    if w.len() == 1 {
        assert(all.drop_last() =~= s);
        assert(w =~= seq![w.last()]);
        if all.len() >= 2 {
            assert(all[all.len() - 2] == s.last());
        }
    } else {
        let v = w.drop_last();
        assert(is_word(v)) by {
            assert forall|i: int| 0 <= i < v.len() implies !is_white_space(#[trigger] v[i]) by {
                assert(v[i] == w[i]);
            }
        }
        lemma_tokens_push(s, v);
        assert(all.drop_last() =~= s + v);
        assert(all[all.len() - 2] == w[w.len() - 2]);
        assert(v.push(w.last()) =~= w);
        assert(extend_last(tokens_of(s).push(v), w.last()) =~= tokens_of(s).push(w));
    }
}

pub proof fn lemma_tokens_spaced(words: Seq<Seq<char>>)
    requires
        forall|i: int| 0 <= i < words.len() ==> is_word(#[trigger] words[i]),
    ensures
        tokens_of(spaced(words)) == words,
    decreases words.len(),
{
    if words.len() == 0 {
        assert(tokens_of(spaced(words)) =~= words);
    } else {
        assert(is_word(words[words.len() - 1]));
        let init = words.drop_last();
        assert(init.push(words.last()) =~= words);
        if words.len() == 1 {
            lemma_tokens_push(Seq::empty(), words[0]);
            assert(Seq::<char>::empty() + words[0] =~= spaced(words));
            assert(tokens_of(spaced(words)) =~= words);
        } else {
            assert forall|i: int| 0 <= i < init.len() implies is_word(#[trigger] init[i]) by {
                assert(init[i] == words[i]);
            }
            lemma_tokens_spaced(init);
            let s = spaced(init) + seq![' '];
            assert(s.drop_last() =~= spaced(init));
            assert(tokens_of(s) == tokens_of(spaced(init)));
            lemma_tokens_push(s, words.last());
            assert(s + words.last() =~= spaced(words));
        }
    }
}

/// Cutting words that are spaced out gives the words back; white space at the end
/// does not matter.
pub proof fn law_tokens_are_the_words(
    words: Seq<Seq<char>>,
    s: &[char],
    r: Vec<Vec<char>>,
    more: &[char],
    r2: Vec<Vec<char>>,
)
    requires
        forall|i: int| 0 <= i < words.len() ==> is_word(#[trigger] words[i]),
        s@ == spaced(words),
        call_ensures(tokens, (s,), r),
        more@.len() == s@.len() + 1,
        more@.drop_last() == s@,
        is_white_space(more@.last()),
        call_ensures(tokens, (more,), r2),
    ensures
        pieces(r@) == words,
        pieces(r2@) == words,
{
    lemma_tokens_spaced(words);
}

/// The digits of a number write it.
pub proof fn lemma_decimal_value(n: nat)
    ensures
        decimal(n).len() > 0,
        all_digits(decimal(n)),
        digits_value(decimal(n)) == n,
    decreases n,
{
    if n < 10 {
        assert(decimal(n).drop_last() =~= Seq::empty());
        assert(decimal(n).last() == digit_char(n as int));
        assert(digits_value(Seq::empty()) == 0);
    } else {
        lemma_decimal_value(n / 10);
        let d = decimal(n);
        assert(d.drop_last() =~= decimal(n / 10));
        assert forall|i: int| 0 <= i < d.len() implies is_digit(#[trigger] d[i]) by {
            if i < d.len() - 1 {
                assert(d[i] == decimal(n / 10)[i]);
            }
        }
    }
}

/// Reading back what writing a number gives, with or without a sign.
pub proof fn law_written_integer_reads_back(
    n: u64,
    text: String,
    plain: &[char],
    minus: &[char],
    plus: &[char],
    a: Option<i32>,
    b: Option<i32>,
    c: Option<i32>,
)
    requires
        n <= 0x7fff_ffff,
        call_ensures(to_decimal, (n,), text),
        plain@ == text@,
        minus@ == seq!['-'] + text@,
        plus@ == seq!['+'] + text@,
        call_ensures(parse_int, (plain,), a),
        call_ensures(parse_int, (minus,), b),
        call_ensures(parse_int, (plus,), c),
    ensures
        a == Some(n as i32),
        b == Some(-(n as i32) as i32),
        c == Some(n as i32),
{
    lemma_int_of_decimal(n as nat);
}

pub proof fn lemma_int_of_decimal(n: nat)
    requires
        n <= 0x7fff_ffff,
    ensures
        int_of(decimal(n)) == Some(n as i32),
        int_of(seq!['-'] + decimal(n)) == Some((-(n as int)) as i32),
        int_of(seq!['+'] + decimal(n)) == Some(n as i32),
{
    lemma_decimal_value(n);
    assert(is_digit(decimal(n)[0]));
    assert((seq!['-'] + decimal(n)).skip(1) =~= decimal(n));
    assert((seq!['+'] + decimal(n)).skip(1) =~= decimal(n));
}

/// A text that is no number is not read as one.
pub proof fn law_text_without_digits_is_no_integer(s: &[char], r: Option<i32>)
    requires
        s@.len() == 0 || !is_digit(s@.last()),
        call_ensures(parse_int, (s,), r),
    ensures
        r is None,
{
    let t = s@;
    if int_of(t) is Some {
        let digits = crate::bake::text_scan::signed_digits(t).1;
        assert(is_digit(digits[digits.len() - 1]));
        assert(digits[digits.len() - 1] == t.last());
    }
}

} // verus!
