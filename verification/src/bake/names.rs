//! Generated identifiers: constant and module names made from file names, and
//! the order in which generated modules appear.

use crate::strings::{
    char_is_alnum, char_is_digit, char_lower, char_upper, is_alnum, is_digit, lower_of, upper_of,
};
use vstd::prelude::*;

verus! {

/// Every character upper-cased, anything but ASCII letters and digits an
/// underscore.
pub open spec fn upper_name(s: Seq<char>) -> Seq<char> {
    s.map_values(
        |c: char|
            if is_alnum(c) {
                upper_of(c)
            } else {
                '_'
            },
    )
}

/// Every character lower-cased, anything but ASCII letters and digits an
/// underscore.
pub open spec fn lower_name(s: Seq<char>) -> Seq<char> {
    s.map_values(
        |c: char|
            if is_alnum(c) {
                lower_of(c)
            } else {
                '_'
            },
    )
}

/// An underscore in front of a leading digit.
pub open spec fn guard_digit(s: Seq<char>) -> Seq<char> {
    if s.len() > 0 && is_digit(s[0]) {
        seq!['_'] + s
    } else {
        s
    }
}

/// Convert a file stem to a constant name: upper-cased, non-alphanumerics turned
/// to `_`.
pub fn const_name(stem: &str) -> (r: String)
    ensures
        r@ == upper_name(stem@),
{
    let mut s: String = String::new();
    for c in iter: stem.chars()
        invariant
            s@ == upper_name(iter.seq().subrange(0, iter.index() as int)),
            iter.seq() == stem@,
    {
        let ghost done = iter.seq().subrange(0, iter.index() as int);
        assert(iter.seq().subrange(0, iter.index() + 1) =~= done.push(c));
        assert(upper_name(done.push(c)) =~= upper_name(done).push(
            if is_alnum(c) {
                upper_of(c)
            } else {
                '_'
            },
        ));
        if char_is_alnum(c) {
            s.push(char_upper(c));
        } else {
            s.push('_');
        }
    }
    assert(stem@.subrange(0, stem@.len() as int) =~= stem@);
    s
}

/// Put an underscore in front of a leading digit.
pub(crate) fn guard_leading_digit(s: String) -> (r: String)
    ensures
        r@ == guard_digit(s@),
{
    let v: Vec<char> = crate::strings::chars_of(s.as_str());
    if v.len() > 0 && char_is_digit(v[0]) {
        let mut r: String = String::new();
        r.push('_');
        crate::strings::push_text(&mut r, s.as_str());
        assert(r@ =~= guard_digit(s@));
        r
    } else {
        s
    }
}

/// Convert a directory name to a module name: lower-cased, non-alphanumerics
/// turned to `_`, and never starting with a digit.
pub fn module_name(component: &str) -> (r: String)
    ensures
        r@ == guard_digit(lower_name(component@)),
{
    let mut s: String = String::new();
    for c in iter: component.chars()
        invariant
            s@ == lower_name(iter.seq().subrange(0, iter.index() as int)),
            iter.seq() == component@,
    {
        let ghost done = iter.seq().subrange(0, iter.index() as int);
        assert(iter.seq().subrange(0, iter.index() + 1) =~= done.push(c));
        assert(lower_name(done.push(c)) =~= lower_name(done).push(
            if is_alnum(c) {
                lower_of(c)
            } else {
                '_'
            },
        ));
        if char_is_alnum(c) {
            s.push(char_lower(c));
        } else {
            s.push('_');
        }
    }
    assert(component@.subrange(0, component@.len() as int) =~= component@);
    guard_leading_digit(s)
}

/// A character that may stand in an identifier.
pub open spec fn is_ident_char(c: char) -> bool {
    is_alnum(c) || c == '_'
}

/// A generated name holds only identifier characters, as many as the file name.
pub proof fn law_names_are_identifiers(s: Seq<char>, i: int)
    requires
        0 <= i < s.len(),
    ensures
        upper_name(s).len() == s.len(),
        lower_name(s).len() == s.len(),
        is_ident_char(upper_name(s)[i]),
        is_ident_char(lower_name(s)[i]),
{
}

/// A guarded name never starts with a digit.
pub proof fn law_guarded_name_has_no_leading_digit(s: Seq<char>)
    ensures
        guard_digit(s).len() > 0 ==> !is_digit(guard_digit(s)[0]),
{
}

/// Naming a name changes nothing.
pub proof fn law_const_name_is_idempotent(s: Seq<char>)
    ensures
        upper_name(upper_name(s)) == upper_name(s),
{
    assert(upper_name(upper_name(s)) =~= upper_name(s));
}

/// `a` comes before `b` in dictionary order of their characters.
pub open spec fn lex_less(a: Seq<char>, b: Seq<char>) -> bool
    decreases a.len(),
{
    if b.len() == 0 {
        false
    } else if a.len() == 0 {
        true
    } else if a[0] != b[0] {
        a[0] < b[0]
    } else {
        lex_less(a.skip(1), b.skip(1))
    }
}

/// A common start does not matter to the order.
proof fn lemma_lex_skip(a: Seq<char>, b: Seq<char>, i: int)
    requires
        0 <= i <= a.len(),
        i <= b.len(),
        forall|k: int| 0 <= k < i ==> a[k] == b[k],
    ensures
        lex_less(a, b) == lex_less(a.skip(i), b.skip(i)),
    decreases i,
{
    if i == 0 {
        assert(a.skip(0) =~= a && b.skip(0) =~= b);
    } else {
        lemma_lex_skip(a, b, i - 1);
        let x = a.skip(i - 1);
        let y = b.skip(i - 1);
        assert(x[0] == a[i - 1] && y[0] == b[i - 1]);
        assert(x.skip(1) =~= a.skip(i));
        assert(y.skip(1) =~= b.skip(i));
    }
}

/// Does `a` come before `b` in dictionary order?
pub fn comes_before(a: &str, b: &str) -> (r: bool)
    ensures
        r == lex_less(a@, b@),
{
    let x: Vec<char> = crate::strings::chars_of(a);
    let y: Vec<char> = crate::strings::chars_of(b);
    let mut i: usize = 0;
    while i < x.len() && i < y.len() && x[i] == y[i]
        invariant
            i <= x.len(),
            i <= y.len(),
            forall|k: int| 0 <= k < i ==> x@[k] == y@[k],
        decreases x.len() - i,
    {
        i = i + 1;
    }
    proof {
        lemma_lex_skip(x@, y@, i as int);
    }
    if i >= y.len() {
        false
    } else if i >= x.len() {
        true
    } else {
        x[i] < y[i]
    }
}

/// Nothing comes before itself.
pub proof fn lemma_lex_irreflexive(a: Seq<char>)
    ensures
        !lex_less(a, a),
    decreases a.len(),
{
    if a.len() > 0 {
        lemma_lex_irreflexive(a.skip(1));
    }
}

/// Of two different names one comes first.
pub proof fn lemma_lex_total(a: Seq<char>, b: Seq<char>)
    ensures
        a == b || lex_less(a, b) || lex_less(b, a),
    decreases a.len(),
{
    if a.len() == 0 || b.len() == 0 {
        if a.len() == b.len() {
            assert(a =~= b);
        }
    } else if a[0] == b[0] {
        lemma_lex_total(a.skip(1), b.skip(1));
        if a.skip(1) == b.skip(1) {
            assert(a =~= seq![a[0]] + a.skip(1));
            assert(b =~= seq![b[0]] + b.skip(1));
        }
    }
}

/// The order is transitive.
pub proof fn lemma_lex_transitive(a: Seq<char>, b: Seq<char>, c: Seq<char>)
    requires
        lex_less(a, b),
        lex_less(b, c),
    ensures
        lex_less(a, c),
    decreases a.len(),
{
    if a.len() > 0 && b.len() > 0 && c.len() > 0 && a[0] == b[0] && b[0] == c[0] {
        lemma_lex_transitive(a.skip(1), b.skip(1), c.skip(1));
    }
}

/// Names in strictly increasing order, so without repetition.
pub open spec fn strictly_sorted(names: Seq<Seq<char>>) -> bool {
    forall|i: int, j: int| 0 <= i < j < names.len() ==> lex_less(names[i], names[j])
}

} // verus!
