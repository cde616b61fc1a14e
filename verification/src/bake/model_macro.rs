//! The compile-time model loader: its arguments and the code it expands to.

use crate::bake::obj::{debug_text, reads, to_debug, Numbers, Options};
use crate::float::F32Bits;
use crate::gpu::display_list::{format_words_rust, words_text};
use crate::strings::{char_is_white_space, chars_of, is_white_space, push_text, same_text, text};
use vstd::prelude::*;

verus! {

/// What a token is.
#[derive(Debug, Clone, Copy, PartialEq, Eq, Structural)]
pub enum TokenClass {
    Punct,
    Ident,
    Literal,
    Group,
}

/// A token between the brackets of a group.
#[derive(Debug, Clone)]
pub struct Leaf {
    pub class: TokenClass,
    pub text: String,
}

/// A token of the macro's input; a group holds further ones.
#[derive(Debug, Clone)]
pub struct Token {
    pub class: TokenClass,
    pub text: String,
    pub inner: Vec<Leaf>,
}

impl Leaf {
    /// The token is this one.
    pub open spec fn is(self, class: TokenClass, text: Seq<char>) -> bool {
        self.class == class && self.text@ == text
    }
}

impl Token {
    /// The token is this one.
    pub open spec fn is(self, class: TokenClass, text: Seq<char>) -> bool {
        self.class == class && self.text@ == text
    }
}

/// The path and the settings of one use of the macro.
pub struct Args {
    pub path: String,
    pub opts: Options,
}

/// The settings, with the offset as a sequence.
#[verifier::ext_equal]
pub struct Settings {
    pub center: bool,
    pub offset: Seq<F32Bits>,
    pub compress: bool,
}

/// The settings, with the offset as a sequence.
pub open spec fn settings_view(o: Options) -> Settings {
    Settings { center: o.center, offset: o.offset@, compress: o.compress }
}

/// The text without the white space in front.
pub open spec fn trim_front(s: Seq<char>) -> Seq<char>
    decreases s.len(),
{
    if s.len() > 0 && is_white_space(s[0]) {
        trim_front(s.skip(1))
    } else {
        s
    }
}

/// The text without the white space behind.
pub open spec fn trim_back(s: Seq<char>) -> Seq<char>
    decreases s.len(),
{
    if s.len() > 0 && is_white_space(s.last()) {
        trim_back(s.drop_last())
    } else {
        s
    }
}

/// The text between the quotes of a string literal.
pub open spec fn unquoted(s: Seq<char>) -> Option<Seq<char>> {
    let t = trim_back(trim_front(s));
    if t.len() >= 2 && t[0] == '"' && t.last() == '"' {
        Some(t.subrange(1, t.len() - 1))
    } else {
        None
    }
}

/// Strip the quotes of a string literal; nothing where there are none.
pub fn unquote(s: &str) -> (r: Option<String>)
    ensures
        match r {
            Some(t) => unquoted(s@) == Some(t@),
            None => unquoted(s@) is None,
        },
{
    let v: Vec<char> = chars_of(s);
    let mut a: usize = 0;
    assert(v@.skip(0) =~= v@);
    while a < v.len() && char_is_white_space(v[a])
        invariant
            a <= v.len(),
            trim_front(v@) == trim_front(v@.skip(a as int)),
        decreases v.len() - a,
    {
        assert(v@.skip(a as int).skip(1) =~= v@.skip(a + 1));
        a = a + 1;
    }
    let ghost front = v@.skip(a as int);
    assert(trim_front(v@) == front);
    let mut b: usize = v.len();
    assert(v@.subrange(a as int, b as int) =~= front);
    while b > a && char_is_white_space(v[b - 1])
        invariant
            a <= b <= v.len(),
            trim_back(front) == trim_back(v@.subrange(a as int, b as int)),
        decreases b,
    {
        assert(v@.subrange(a as int, b as int).drop_last() =~= v@.subrange(a as int, b - 1));
        b = b - 1;
    }
    let ghost t = v@.subrange(a as int, b as int);
    assert(trim_back(front) == t);
    if b - a < 2 || v[a] != '"' || v[b - 1] != '"' {
        return None;
    }
    let mut out: String = String::new();
    let mut i: usize = a + 1;
    assert(out@ =~= v@.subrange(a + 1, i as int));
    while i < b - 1
        invariant
            a + 1 <= i <= b - 1,
            b <= v.len(),
            out@ == v@.subrange(a + 1, i as int),
        decreases b - i,
    {
        out.push(v[i]);
        assert(out@ =~= v@.subrange(a + 1, i + 1));
        i = i + 1;
    }
    assert(out@ =~= t.subrange(1, t.len() - 1));
    Some(out)
}

/// The three numbers of an offset, from token `j` on and behind those in `got`.
pub open spec fn triple_from(
    leaves: Seq<Leaf>,
    j: int,
    got: Seq<F32Bits>,
    negative: bool,
    value: Numbers,
) -> Result<Seq<F32Bits>, Seq<char>>
    decreases leaves.len() - j,
{
    if j >= leaves.len() {
        if got.len() == 3 {
            Ok(got)
        } else {
            Err("include_obj!: offset takes exactly 3 numbers, e.g. [0.0, -0.2, 0.0]"@)
        }
    } else if leaves[j].is(TokenClass::Punct, ","@) {
        triple_from(leaves, j + 1, got, false, value)
    } else if leaves[j].is(TokenClass::Punct, "-"@) {
        triple_from(leaves, j + 1, got, true, value)
    } else if leaves[j].class == TokenClass::Literal {
        if got.len() >= 3 {
            Err("include_obj!: offset takes exactly 3 numbers"@)
        } else {
            match value(leaves[j].text@) {
                None => Err("include_obj!: `"@ + leaves[j].text@ + "` is not a number"@),
                Some(v) => triple_from(
                    leaves,
                    j + 1,
                    got.push(
                        if negative {
                            v.negated()
                        } else {
                            v
                        },
                    ),
                    false,
                    value,
                ),
            }
        }
    } else {
        Err("include_obj!: unexpected token `"@ + leaves[j].text@ + "` in offset"@)
    }
}

/// A token for an error text.
pub open spec fn described(tokens: Seq<Token>, k: int) -> Seq<char> {
    if k < tokens.len() {
        "`"@ + tokens[k].text@ + "`"@
    } else {
        "end of input"@
    }
}

/// The settings from token `k` on, on top of `s`.
pub open spec fn settings_from(tokens: Seq<Token>, k: int, s: Settings, value: Numbers) -> Result<
    Settings,
    Seq<char>,
>
    decreases tokens.len() - k,
{
    if k >= tokens.len() {
        Ok(s)
    } else if tokens[k].is(TokenClass::Punct, ","@) {
        settings_from(tokens, k + 1, s, value)
    } else if tokens[k].is(TokenClass::Ident, "center"@) {
        settings_from(tokens, k + 1, Settings { center: true, ..s }, value)
    } else if tokens[k].is(TokenClass::Ident, "compress"@) {
        settings_from(tokens, k + 1, Settings { compress: true, ..s }, value)
    } else if tokens[k].is(TokenClass::Ident, "offset"@) {
        if k + 1 >= tokens.len() || !tokens[k + 1].is(TokenClass::Punct, "="@) {
            Err("include_obj!: expected `=` after `offset`, found "@ + described(tokens, k + 1))
        } else if k + 2 >= tokens.len() || tokens[k + 2].class != TokenClass::Group {
            Err(
                "include_obj!: expected `[x, y, z]` after `offset =`, found "@ + described(
                    tokens,
                    k + 2,
                ),
            )
        } else {
            match triple_from(tokens[k + 2].inner@, 0, Seq::empty(), false, value) {
                Err(e) => Err(e),
                Ok(offset) => settings_from(tokens, k + 3, Settings { offset, ..s }, value),
            }
        }
    } else {
        Err("include_obj!: unknown setting `"@ + tokens[k].text@ + "`"@)
    }
}

/// No setting given.
pub open spec fn no_settings() -> Settings {
    Settings {
        center: false,
        offset: seq![F32Bits(0), F32Bits(0), F32Bits(0)],
        compress: false,
    }
}

/// The path and the settings that the tokens write.
pub open spec fn args_of(tokens: Seq<Token>, value: Numbers) -> Result<
    (Seq<char>, Settings),
    Seq<char>,
> {
    if tokens.len() == 0 || tokens[0].class != TokenClass::Literal {
        Err("include_obj! expects a path, e.g. include_obj!(\"assets/model.obj\")"@)
    } else {
        match unquoted(tokens[0].text@) {
            None => Err("include_obj!: first argument must be a string-literal path"@),
            Some(path) => match settings_from(tokens, 1, no_settings(), value) {
                Err(e) => Err(e),
                Ok(s) => Ok((path, s)),
            },
        }
    }
}

fn two_parts(a: &str, b: &str) -> (r: String)
    ensures
        r@ == a@ + b@,
{
    let mut out: String = text(a);
    push_text(&mut out, b);
    out
}

fn three_parts(a: &str, b: &str, c: &str) -> (r: String)
    ensures
        r@ == a@ + b@ + c@,
{
    let mut out: String = two_parts(a, b);
    push_text(&mut out, c);
    out
}

fn describe(tokens: &[Token], k: usize) -> (r: String)
    ensures
        r@ == described(tokens@, k as int),
{
    if k < tokens.len() {
        three_parts("`", tokens[k].text.as_str(), "`")
    } else {
        text("end of input")
    }
}

fn is_token(class: TokenClass, found: &str, want_class: TokenClass, want: &str) -> (r: bool)
    ensures
        r == (class == want_class && found@ == want@),
{
    class == want_class && same_text(found, want)
}

/// Read the three numbers of an offset.
pub fn parse_triple<F: Fn(&str) -> Option<F32Bits>>(leaves: &[Leaf], number: &F) -> (r: Result<
    [F32Bits; 3],
    String,
>)
    requires
        forall|s: &str| #[trigger] call_requires(*number, (s,)),
    ensures
        forall|value: Numbers| #[trigger]
            reads(*number, value) ==> match r {
                Ok(v) => triple_from(leaves@, 0, Seq::empty(), false, value) == Ok::<
                    Seq<F32Bits>,
                    Seq<char>,
                >(v@),
                Err(e) => triple_from(leaves@, 0, Seq::empty(), false, value) == Err::<
                    Seq<F32Bits>,
                    Seq<char>,
                >(e@),
            },
{
    let mut out: Vec<F32Bits> = Vec::new();
    let mut negative: bool = false;
    let mut j: usize = 0;
    assert(out@ =~= Seq::empty());
    while j < leaves.len()
        invariant
            j <= leaves.len(),
            out.len() <= 3,
            forall|s: &str| #[trigger] call_requires(*number, (s,)),
            forall|value: Numbers| #[trigger]
                reads(*number, value) ==> triple_from(leaves@, 0, Seq::empty(), false, value)
                    == triple_from(leaves@, j as int, out@, negative, value),
        decreases leaves.len() - j,
    {
        let class: TokenClass = leaves[j].class;
        let t: &str = leaves[j].text.as_str();
        if is_token(class, t, TokenClass::Punct, ",") {
            negative = false;
        } else if is_token(class, t, TokenClass::Punct, "-") {
            negative = true;
        } else if class == TokenClass::Literal {
            if out.len() >= 3 {
                return Err(text("include_obj!: offset takes exactly 3 numbers"));
            }
            let v: F32Bits = match number(t) {
                Some(v) => v,
                None => {
                    return Err(three_parts("include_obj!: `", t, "` is not a number"));
                },
            };
            out.push(
                if negative {
                    v.negate()
                } else {
                    v
                },
            );
            negative = false;
        } else {
            return Err(three_parts("include_obj!: unexpected token `", t, "` in offset"));
        }
        j = j + 1;
    }
    if out.len() != 3 {
        return Err(
            text("include_obj!: offset takes exactly 3 numbers, e.g. [0.0, -0.2, 0.0]"),
        );
    }
    let v: [F32Bits; 3] = [out[0], out[1], out[2]];
    assert(v@ =~= out@);
    Ok(v)
}

/// Read the macro's input: a path, then any of `center`, `compress` and
/// `offset = [x, y, z]`, with commas between them.
pub fn parse_args<F: Fn(&str) -> Option<F32Bits>>(tokens: &[Token], number: F) -> (r: Result<
    Args,
    String,
>)
    requires
        forall|s: &str| #[trigger] call_requires(number, (s,)),
    ensures
        forall|value: Numbers| #[trigger]
            reads(number, value) ==> match r {
                Ok(a) => args_of(tokens@, value) == Ok::<(Seq<char>, Settings), Seq<char>>(
                    (a.path@, settings_view(a.opts)),
                ),
                Err(e) => args_of(tokens@, value) == Err::<(Seq<char>, Settings), Seq<char>>(e@),
            },
{
    if tokens.len() == 0 || tokens[0].class != TokenClass::Literal {
        return Err(
            text("include_obj! expects a path, e.g. include_obj!(\"assets/model.obj\")"),
        );
    }
    let path: String = match unquote(tokens[0].text.as_str()) {
        Some(p) => p,
        None => {
            return Err(text("include_obj!: first argument must be a string-literal path"));
        },
    };
    let mut opts: Options = Options::default();
    let mut k: usize = 1;
    assert(settings_view(opts) =~= no_settings());
    while k < tokens.len()
        invariant
            1 <= k <= tokens.len(),
            tokens@[0].class == TokenClass::Literal,
            unquoted(tokens@[0].text@) == Some(path@),
            forall|s: &str| #[trigger] call_requires(number, (s,)),
            forall|value: Numbers| #[trigger]
                reads(number, value) ==> settings_from(tokens@, 1, no_settings(), value)
                    == settings_from(tokens@, k as int, settings_view(opts), value),
        decreases tokens.len() - k,
    {
        let ghost before = settings_view(opts);
        let class: TokenClass = tokens[k].class;
        let t: &str = tokens[k].text.as_str();
        if is_token(class, t, TokenClass::Punct, ",") {
            k = k + 1;
        } else if is_token(class, t, TokenClass::Ident, "center") {
            opts.center = true;
            assert(settings_view(opts) =~= (Settings { center: true, ..before }));
            k = k + 1;
        } else if is_token(class, t, TokenClass::Ident, "compress") {
            opts.compress = true;
            assert(settings_view(opts) =~= (Settings { compress: true, ..before }));
            k = k + 1;
        } else if is_token(class, t, TokenClass::Ident, "offset") {
            if tokens.len() - k < 2 || !is_token(
                tokens[k + 1].class,
                tokens[k + 1].text.as_str(),
                TokenClass::Punct,
                "=",
            ) {
                let found: String = describe(tokens, k + 1);
                return Err(
                    two_parts("include_obj!: expected `=` after `offset`, found ", found.as_str()),
                );
            }
            if tokens.len() - k < 3 || tokens[k + 2].class != TokenClass::Group {
                let found: String = describe(tokens, k + 2);
                return Err(
                    two_parts("include_obj!: expected `[x, y, z]` after `offset =`, found ", found.as_str()),
                );
            }
            match parse_triple(tokens[k + 2].inner.as_slice(), &number) {
                Ok(offset) => {
                    opts.offset = offset;
                    assert(settings_view(opts) =~= (Settings { offset: offset@, ..before }));
                },
                Err(e) => {
                    return Err(e);
                },
            }
            k = k + 3;
        } else {
            return Err(three_parts("include_obj!: unknown setting `", t, "`"));
        }
    }
    Ok(Args { path, opts })
}

/// `part` stands somewhere in `s`.
pub open spec fn holds_text(s: Seq<char>, part: Seq<char>) -> bool {
    exists|i: int|
        0 <= i && i + part.len() <= s.len() && #[trigger] s.subrange(i, i + part.len()) == part
}

/// A number's text as a float literal: with `.0` behind it where nothing else says
/// that it is a float.
pub open spec fn float_literal(s: Seq<char>) -> Seq<char> {
    if s.contains('.') || s.contains('e') || holds_text(s, "inf"@) || holds_text(s, "NaN"@) {
        s
    } else {
        s + ".0"@
    }
}

fn contains_char(v: &Vec<char>, c: char) -> (r: bool)
    ensures
        r == v@.contains(c),
{
    let mut i: usize = 0;
    while i < v.len()
        invariant
            i <= v.len(),
            forall|k: int| 0 <= k < i ==> v@[k] != c,
        decreases v.len() - i,
    {
        if v[i] == c {
            assert(v@[i as int] == c);
            return true;
        }
        i = i + 1;
    }
    false
}

fn contains_three(v: &Vec<char>, part: &str) -> (r: bool)
    requires
        part@.len() == 3,
    ensures
        r == holds_text(v@, part@),
{
    let p: Vec<char> = chars_of(part);
    let mut i: usize = 0;
    while i < v.len()
        invariant
            i <= v.len(),
            p@ == part@,
            part@.len() == 3,
            forall|k: int|
                0 <= k < i && k + 3 <= v@.len() ==> #[trigger] v@.subrange(k, k + 3) != part@,
        decreases v.len() - i,
    {
        if v.len() - i >= 3 {
            let ghost t = v@.subrange(i as int, i + 3);
            assert(t[0] == v@[i as int] && t[1] == v@[i + 1] && t[2] == v@[i + 2]);
            if v[i] == p[0] && v[i + 1] == p[1] && v[i + 2] == p[2] {
                assert(t =~= part@);
                assert(v@.subrange(i as int, i + part@.len()) == part@);
                return true;
            }
        }
        i = i + 1;
    }
    assert forall|k: int| 0 <= k && k + part@.len() <= v@.len() implies #[trigger] v@.subrange(
        k,
        k + part@.len(),
    ) != part@ by {
        assert(v@.subrange(k, k + 3) != part@);
    }
    false
}

/// Make a float literal of a number's text.
pub fn fl(shown: &str) -> (r: String)
    ensures
        r@ == float_literal(shown@),
{
    proof {
        reveal_strlit("inf");
        reveal_strlit("NaN");
    }
    let v: Vec<char> = chars_of(shown);
    let mut out: String = text(shown);
    if !contains_char(&v, '.') && !contains_char(&v, 'e') && !contains_three(&v, "inf")
        && !contains_three(&v, "NaN") {
        push_text(&mut out, ".0");
    }
    out
}

/// Three literals in brackets.
pub open spec fn vector_literal(x: Seq<char>, y: Seq<char>, z: Seq<char>) -> Seq<char> {
    "["@ + float_literal(x) + "f32,"@ + float_literal(y) + "f32,"@ + float_literal(z) + "f32]"@
}

/// The expression a use of the macro expands to.
pub open spec fn expansion(
    words: Seq<u32>,
    path: Seq<char>,
    min: (Seq<char>, Seq<char>, Seq<char>),
    max: (Seq<char>, Seq<char>, Seq<char>),
) -> Seq<char> {
    "{\n    const _: &[u8] = include_bytes!("@ + debug_text(path)
        + ");\n    const WORDS: &[u32] = &["@ + words_text(words, words.len())
        + "\n    ];\n    ::bevy_nds_3d::DsMesh::from_baked(WORDS, "@ + vector_literal(
        min.0,
        min.1,
        min.2,
    ) + ", "@ + vector_literal(max.0, max.1, max.2) + ")\n}\n"@
}

fn push_vector(s: &mut String, x: &str, y: &str, z: &str)
    ensures
        final(s)@ == old(s)@ + vector_literal(x@, y@, z@),
{
    push_text(s, "[");
    push_text(s, fl(x).as_str());
    push_text(s, "f32,");
    push_text(s, fl(y).as_str());
    push_text(s, "f32,");
    push_text(s, fl(z).as_str());
    push_text(s, "f32]");
    assert(s@ =~= old(s)@ + vector_literal(x@, y@, z@));
}

/// Write the expression that a use of the macro expands to: it ties the build to the
/// source file and makes a mesh of the words and the corners of the bounding box,
/// which come as the texts of their numbers.
pub fn emit(
    words: &[u32],
    path: &str,
    min: (&str, &str, &str),
    max: (&str, &str, &str),
) -> (r: String)
    ensures
        r@ == expansion(
            words@,
            path@,
            (min.0@, min.1@, min.2@),
            (max.0@, max.1@, max.2@),
        ),
{
    let mut s: String = text("{\n    const _: &[u8] = include_bytes!(");
    push_text(&mut s, to_debug(path).as_str());
    push_text(&mut s, ");\n    const WORDS: &[u32] = &[");
    push_text(&mut s, format_words_rust(words).as_str());
    push_text(&mut s, "\n    ];\n    ::bevy_nds_3d::DsMesh::from_baked(WORDS, ");
    push_vector(&mut s, min.0, min.1, min.2);
    push_text(&mut s, ", ");
    push_vector(&mut s, max.0, max.1, max.2);
    push_text(&mut s, ")\n}\n");
    s
}

} // verus!
