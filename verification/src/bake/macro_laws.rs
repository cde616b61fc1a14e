//! What the settings of the model macro change.

use crate::bake::model_macro::{
    args_of, no_settings, settings_from, triple_from, Leaf, Settings, Token, TokenClass,
};
use crate::bake::obj::Numbers;
use crate::float::F32Bits;
use vstd::prelude::*;

verus! {

/// The tokens with more behind them.
pub open spec fn goes_on(tokens: Seq<Token>, more: Seq<Token>) -> bool {
    tokens.len() <= more.len() && forall|i: int|
        0 <= i < tokens.len() ==> #[trigger] more[i] == tokens[i]
}

proof fn lemma_settings_on(
    tokens: Seq<Token>,
    more: Seq<Token>,
    k: int,
    s: Settings,
    value: Numbers,
)
    requires
        goes_on(tokens, more),
        0 <= k <= tokens.len(),
        settings_from(tokens, k, s, value) is Ok,
    ensures
        settings_from(more, k, s, value) == settings_from(
            more,
            tokens.len() as int,
            settings_from(tokens, k, s, value)->Ok_0,
            value,
        ),
    decreases tokens.len() - k,
{
    if k < tokens.len() {
        let t = tokens[k];
        assert(more[k] == t);
        if t.is(TokenClass::Punct, ","@) {
            lemma_settings_on(tokens, more, k + 1, s, value);
        } else if t.is(TokenClass::Ident, "center"@) {
            lemma_settings_on(tokens, more, k + 1, Settings { center: true, ..s }, value);
        } else if t.is(TokenClass::Ident, "compress"@) {
            lemma_settings_on(tokens, more, k + 1, Settings { compress: true, ..s }, value);
        } else {
            assert(more[k + 1] == tokens[k + 1]);
            assert(more[k + 2] == tokens[k + 2]);
            let offset = triple_from(
                tokens[k + 2].inner@,
                0,
                Seq::empty(),
                false,
                value,
            )->Ok_0;
            lemma_settings_on(tokens, more, k + 3, Settings { offset, ..s }, value);
        }
    }
}

proof fn lemma_setting_names()
    ensures
        "center"@ != "compress"@,
        "center"@ != "offset"@,
        "compress"@ != "offset"@,
{
    reveal_strlit("center");
    reveal_strlit("compress");
    reveal_strlit("offset");
    assert("center"@.len() == 6 && "compress"@.len() == 8 && "offset"@.len() == 6);
    assert("center"@[0] != "offset"@[0]);
}

/// One more setting behind those of a use of the macro sets what it is for, and nothing
/// else: that the model is centred, that its vertices are compressed, or what it is
/// moved by. A comma sets nothing, and the path stays.
pub proof fn law_macro_setting_sets_its_value(
    tokens: Seq<Token>,
    path: Seq<char>,
    s: Settings,
    more: Seq<Token>,
    value: Numbers,
)
    requires
        args_of(tokens, value) == Ok::<_, Seq<char>>((path, s)),
        goes_on(tokens, more),
    ensures
        ({
            let n = tokens.len() as int;
            let r = args_of(more, value);
            &&& more.len() == n + 1 && more[n].class == TokenClass::Ident && more[n].text@
                == "center"@ ==> r == Ok::<_, Seq<char>>((path, Settings { center: true, ..s }))
            &&& more.len() == n + 1 && more[n].class == TokenClass::Ident && more[n].text@
                == "compress"@ ==> r == Ok::<_, Seq<char>>((path, Settings { compress: true, ..s }))
            &&& more.len() == n + 1 && more[n].class == TokenClass::Punct && more[n].text@ == ","@
                ==> r == Ok::<_, Seq<char>>((path, s))
            &&& more.len() == n + 3 && more[n].class == TokenClass::Ident && more[n].text@
                == "offset"@ && more[n + 1].class == TokenClass::Punct && more[n + 1].text@ == "="@
                && more[n + 2].class == TokenClass::Group ==> (triple_from(
                more[n + 2].inner@,
                0,
                Seq::empty(),
                false,
                value,
            ) matches Ok(offset) ==> r == Ok::<_, Seq<char>>((path, Settings { offset, ..s })))
        }),
{
    let n = tokens.len() as int;
    lemma_setting_names();
    assert(more[0] == tokens[0]);
    lemma_settings_on(tokens, more, 1, no_settings(), value);
    let t = more[n];
    if more.len() == n + 1 {
        if t.class == TokenClass::Ident && t.text@ == "center"@ {
            let next = Settings { center: true, ..s };
            assert(settings_from(more, n + 1, next, value) == Ok::<Settings, Seq<char>>(next));
            assert(settings_from(more, n, s, value) == settings_from(more, n + 1, next, value));
        } else if t.class == TokenClass::Ident && t.text@ == "compress"@ {
            let next = Settings { compress: true, ..s };
            assert(settings_from(more, n + 1, next, value) == Ok::<Settings, Seq<char>>(next));
            assert(settings_from(more, n, s, value) == settings_from(more, n + 1, next, value));
        } else if t.class == TokenClass::Punct && t.text@ == ","@ {
            assert(settings_from(more, n + 1, s, value) == Ok::<Settings, Seq<char>>(s));
            assert(settings_from(more, n, s, value) == settings_from(more, n + 1, s, value));
        }
    } else if more.len() == n + 3 && t.class == TokenClass::Ident && t.text@ == "offset"@ && more[n
        + 1].class == TokenClass::Punct && more[n + 1].text@ == "="@ && more[n + 2].class
        == TokenClass::Group {
        if let Ok(offset) = triple_from(more[n + 2].inner@, 0, Seq::empty(), false, value) {
            let next = Settings { offset, ..s };
            assert(settings_from(more, n + 3, next, value) == Ok::<Settings, Seq<char>>(next));
            assert(settings_from(more, n, s, value) == settings_from(more, n + 3, next, value));
        }
    }
}

/// From `p` on stands a number, with a minus sign where it is negative.
pub open spec fn has_number(v: Seq<Leaf>, p: int, negative: bool, digits: Seq<char>) -> bool {
    let at = if negative {
        p + 1
    } else {
        p
    };
    &&& negative ==> v[p].class == TokenClass::Punct && v[p].text@ == "-"@
    &&& v[at].class == TokenClass::Literal
    &&& v[at].text@ == digits
}

/// A number with the sign it is written with.
pub open spec fn with_sign(v: F32Bits, negative: bool) -> F32Bits {
    if negative {
        v.negated()
    } else {
        v
    }
}

proof fn lemma_number(
    v: Seq<Leaf>,
    p: int,
    negative: bool,
    digits: Seq<char>,
    got: Seq<F32Bits>,
    value: Numbers,
)
    requires
        0 <= p,
        has_number(v, p, negative, digits),
        p + (if negative {
            2int
        } else {
            1
        }) <= v.len(),
        got.len() < 3,
        value(digits) is Some,
    ensures
        triple_from(v, p, got, false, value) == triple_from(
            v,
            p + (if negative {
                2int
            } else {
                1
            }),
            got.push(with_sign(value(digits)->0, negative)),
            false,
            value,
        ),
{
    reveal_strlit(",");
    reveal_strlit("-");
    assert(","@[0] != "-"@[0]);
    if negative {
        assert(triple_from(v, p, got, false, value) == triple_from(v, p + 1, got, true, value));
    }
}

/// Three numbers with commas between them are the offset, in order, each with the sign
/// that it is written with.
pub proof fn law_offset_is_its_three_numbers(
    v: Seq<Leaf>,
    a: (bool, Seq<char>),
    b: (bool, Seq<char>),
    c: (bool, Seq<char>),
    q: int,
    r: int,
    value: Numbers,
)
    requires
        q == if a.0 {
            3int
        } else {
            2
        },
        r == q + (if b.0 {
            3int
        } else {
            2
        }),
        v.len() == r + (if c.0 {
            2int
        } else {
            1
        }),
        has_number(v, 0, a.0, a.1),
        v[q - 1].class == TokenClass::Punct && v[q - 1].text@ == ","@,
        has_number(v, q, b.0, b.1),
        v[r - 1].class == TokenClass::Punct && v[r - 1].text@ == ","@,
        has_number(v, r, c.0, c.1),
        value(a.1) is Some,
        value(b.1) is Some,
        value(c.1) is Some,
    ensures
        triple_from(v, 0, Seq::empty(), false, value) == Ok::<_, Seq<char>>(
            seq![
                with_sign(value(a.1)->0, a.0),
                with_sign(value(b.1)->0, b.0),
                with_sign(value(c.1)->0, c.0),
            ],
        ),
{
    let none = Seq::<F32Bits>::empty();
    let one = none.push(with_sign(value(a.1)->0, a.0));
    let two = one.push(with_sign(value(b.1)->0, b.0));
    let three = two.push(with_sign(value(c.1)->0, c.0));
    lemma_number(v, 0, a.0, a.1, none, value);
    assert(triple_from(v, q - 1, one, false, value) == triple_from(v, q, one, false, value));
    lemma_number(v, q, b.0, b.1, one, value);
    assert(triple_from(v, r - 1, two, false, value) == triple_from(v, r, two, false, value));
    lemma_number(v, r, c.0, c.1, two, value);
    assert(triple_from(v, v.len() as int, three, false, value) == Ok::<_, Seq<char>>(three));
    assert(three =~= seq![
        with_sign(value(a.1)->0, a.0),
        with_sign(value(b.1)->0, b.0),
        with_sign(value(c.1)->0, c.0),
    ]);
}

} // verus!
