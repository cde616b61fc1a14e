//! Where each command, argument and vertex stands in a display list, and what a cube
//! is made of.

use crate::float::F32Bits;
use crate::gpu::display_list::{
    args_of, display_list, display_list_of, fifo_word, group_len, hex_digit, hex_digits, id_at,
    mesh_ops, packed, vertex_ops, vertices_ops, words_text, Op, PackedVertex, FIFO_BEGIN, FIFO_END,
    FIFO_NORMAL, FIFO_VERTEX10, FIFO_VERTEX16,
};
use crate::gpu::frame_laws::packs_xy;
use crate::gpu::mesh::{
    cube_corner, face_signs, is_cube_tri, is_cube_vertex, side, tri_corner, DsMesh,
};
use crate::gpu::render::{
    GFX_BEGIN, GFX_COLOR, GFX_DIFFUSE_AMBIENT, GFX_END, GFX_FLUSH, GFX_LIGHT_COLOR,
    GFX_LIGHT_VECTOR, GFX_NORMAL, GFX_POLY_FORMAT, GFX_POS_TEST, GFX_SPECULAR_EMISSION,
    GFX_VERTEX16, GFX_VIEWPORT, MATRIX_CONTROL, MATRIX_IDENTITY, MATRIX_MULT_4X4, MATRIX_POP,
    MATRIX_PUSH, MATRIX_TRANSLATE,
};
use vstd::prelude::*;

verus! {

/// The number of arguments of the first `n` commands.
pub open spec fn args_before(ops: Seq<Op>, n: int) -> int
    decreases n,
{
    if n <= 0 {
        0
    } else {
        args_before(ops, n - 1) + ops[n - 1].1.len()
    }
}

/// Byte `b` of a word, counted from the lowest.
pub open spec fn byte_of(w: u32, b: int) -> int {
    if b == 0 {
        w as int % 0x100
    } else if b == 1 {
        (w as int / 0x100) % 0x100
    } else if b == 2 {
        (w as int / 0x1_0000) % 0x100
    } else {
        w as int / 0x100_0000
    }
}

proof fn lemma_word_bytes(a: u8, b: u8, c: u8, d: u8)
    ensures
        byte_of(fifo_word(a, b, c, d), 0) == a,
        byte_of(fifo_word(a, b, c, d), 1) == b,
        byte_of(fifo_word(a, b, c, d), 2) == c,
        byte_of(fifo_word(a, b, c, d), 3) == d,
{
}

proof fn lemma_before_bounds(ops: Seq<Op>, m: int, n: int)
    requires
        0 <= m <= n <= ops.len(),
    ensures
        0 <= args_before(ops, m) <= args_before(ops, n),
    decreases n,
{
    if m < n {
        lemma_before_bounds(ops, m, n - 1);
    } else if n > 0 {
        lemma_before_bounds(ops, n - 1, n - 1);
    }
}

proof fn lemma_before_skip(ops: Seq<Op>, k: int, n: int)
    requires
        0 <= k <= k + n <= ops.len(),
    ensures
        args_before(ops, k + n) == args_before(ops, k) + args_before(ops.skip(k), n),
    decreases n,
{
    if n > 0 {
        lemma_before_skip(ops, k, n - 1);
        assert(ops.skip(k)[n - 1] == ops[k + n - 1]);
    }
}

proof fn lemma_before_take(ops: Seq<Op>, k: int, n: int)
    requires
        0 <= n <= k <= ops.len(),
    ensures
        args_before(ops.take(k), n) == args_before(ops, n),
    decreases n,
{
    if n > 0 {
        lemma_before_take(ops, k, n - 1);
    }
}

proof fn lemma_args_len(ops: Seq<Op>)
    ensures
        args_of(ops).len() == args_before(ops, ops.len() as int),
    decreases ops.len(),
{
    if ops.len() > 0 {
        let init = ops.drop_last();
        lemma_args_len(init);
        let n = init.len() as int;
        assert(init =~= ops.take(n));
        lemma_before_take(ops, n, n);
    }
}

proof fn lemma_args(ops: Seq<Op>, i: int, k: int)
    requires
        0 <= i < ops.len(),
        0 <= k < ops[i].1.len(),
    ensures
        0 <= args_before(ops, i),
        args_before(ops, i) + k < args_of(ops).len(),
        args_of(ops)[args_before(ops, i) + k] == ops[i].1[k],
    decreases ops.len(),
{
    let init = ops.drop_last();
    let n = init.len() as int;
    assert(init =~= ops.take(n));
    lemma_args_len(init);
    lemma_before_take(ops, n, n);
    lemma_before_bounds(ops, 0, i);
    if i < n {
        lemma_args(init, i, k);
        lemma_before_take(ops, n, i);
    }
}

/// Command `i` is numbered in its group's first word and followed by its arguments.
pub open spec fn stands(list: Seq<u32>, ops: Seq<Op>, i: int) -> bool {
    let head = i / 4 + args_before(ops, 4 * (i / 4));
    let at = 1 + i / 4 + args_before(ops, i);
    &&& 0 <= head < list.len()
    &&& byte_of(list[head], i % 4) == ops[i].0
    &&& 0 <= at
    &&& at + ops[i].1.len() <= list.len()
    &&& list.subrange(at, at + ops[i].1.len()) == ops[i].1
}

proof fn lemma_packed(ops: Seq<Op>, i: int)
    requires
        0 <= i < ops.len(),
    ensures
        stands(packed(ops), ops, i),
    decreases ops.len(),
{
    let n = group_len(ops);
    let word = fifo_word(id_at(ops, 0), id_at(ops, 1), id_at(ops, 2), id_at(ops, 3));
    let own = args_of(ops.take(n));
    let rest = packed(ops.skip(n));
    let all = packed(ops);
    assert(all == seq![word] + own + rest);
    lemma_word_bytes(id_at(ops, 0), id_at(ops, 1), id_at(ops, 2), id_at(ops, 3));
    lemma_args_len(ops.take(n));
    lemma_before_take(ops, n, n);
    assert(own.len() == args_before(ops, n));
    lemma_before_bounds(ops, 0, n);
    let len = ops[i].1.len();
    let at = 1 + i / 4 + args_before(ops, i);
    lemma_before_bounds(ops, 0, i);
    if i < n {
        assert(i / 4 == 0 && i % 4 == i);
        assert(args_before(ops, 0) == 0);
        lemma_before_bounds(ops, i + 1, n);
        assert(all[0] == word);
        assert forall|k: int| 0 <= k < len implies #[trigger] all.subrange(at, at + len)[k]
            == ops[i].1[k] by {
            lemma_before_take(ops, n, i);
            lemma_args(ops.take(n), i, k);
            let p = args_before(ops, i) + k;
            assert(all[1 + p] == own[p]);
        }
        assert(all.subrange(at, at + len) =~= ops[i].1);
    } else {
        assert(n == 4);
        let j = i - 4;
        let after = ops.skip(4);
        lemma_packed(after, j);
        assert(j / 4 == i / 4 - 1 && j % 4 == i % 4);
        lemma_before_skip(ops, 4, 4 * (j / 4));
        lemma_before_skip(ops, 4, j);
        let shift = 1 + own.len();
        let head = j / 4 + args_before(after, 4 * (j / 4));
        assert(rest[head] == all[shift + head]);
        assert(after[j] == ops[i]);
        assert(all.subrange(at, at + len) =~= rest.subrange(at - shift, at - shift + len));
    }
}

/// Commands stand in a display list in groups of four: a word with their numbers, the
/// first lowest, then their arguments in order. The list starts with the number of the
/// words that follow.
pub proof fn law_display_list_holds_each_command(ops: Seq<Op>, i: int)
    requires
        0 <= i < ops.len(),
    ensures
        stands(display_list_of(ops).skip(1), ops, i),
{
    lemma_packed(ops, i);
    assert(display_list_of(ops).skip(1) =~= packed(ops));
}

/// The word of a compressed vertex: the low ten bits of each coordinate.
pub open spec fn packs_ten(w: int, x: int, y: int, z: int) -> bool {
    &&& w % 0x400 == x % 0x400
    &&& (w / 0x400) % 0x400 == y % 0x400
    &&& w / 0x10_0000 == z % 0x400
}

/// The command that places a vertex.
pub open spec fn places(op: Op, v: PackedVertex, compress: bool) -> bool {
    if compress {
        op.0 == FIFO_VERTEX10 && op.1.len() == 1 && packs_ten(
            op.1[0] as int,
            v.pos10@[0] as int,
            v.pos10@[1] as int,
            v.pos10@[2] as int,
        )
    } else {
        op.0 == FIFO_VERTEX16 && op.1.len() == 2 && packs_xy(
            op.1[0] as int,
            v.pos16@[0],
            v.pos16@[1],
        ) && (op.1[1] == v.pos16@[2] || op.1[1] == v.pos16@[2] + 0x1_0000)
    }
}

proof fn lemma_places(v: PackedVertex, compress: bool)
    ensures
        vertex_ops(v, compress).len() == 2,
        vertex_ops(v, compress)[0] == (FIFO_NORMAL, seq![v.normal]),
        places(vertex_ops(v, compress)[1], v, compress),
{
}

proof fn lemma_vertices(v: Seq<PackedVertex>, compress: bool, j: int)
    requires
        0 <= j < v.len(),
    ensures
        vertices_ops(v, compress).len() == 2 * v.len(),
        vertices_ops(v, compress)[2 * j] == vertex_ops(v[j], compress)[0],
        vertices_ops(v, compress)[2 * j + 1] == vertex_ops(v[j], compress)[1],
    decreases v.len(),
{
    let init = v.drop_last();
    if init.len() > 0 {
        lemma_vertices(init, compress, 0);
    } else {
        assert(vertices_ops(init, compress).len() == 0);
    }
    lemma_places(v.last(), compress);
    if j < init.len() {
        lemma_vertices(init, compress, j);
    }
}

/// A triangle list begins, gives each vertex its normal and then its position, in the
/// order of the vertices, and ends.
pub proof fn law_mesh_list_gives_each_vertex(v: Seq<PackedVertex>, compress: bool, j: int)
    requires
        0 <= j < v.len(),
    ensures
        ({
            let ops = mesh_ops(v, compress);
            &&& ops.len() == 2 * v.len() + 2
            &&& ops[0] == (FIFO_BEGIN, seq![0u32])
            &&& ops[1 + 2 * j] == (FIFO_NORMAL, seq![v[j].normal])
            &&& places(ops[2 + 2 * j], v[j], compress)
            &&& ops.last() == (FIFO_END, Seq::<u32>::empty())
        }),
{
    lemma_vertices(v, compress, j);
    lemma_places(v[j], compress);
    let inner = vertices_ops(v, compress);
    let ops = mesh_ops(v, compress);
    assert(ops[1 + 2 * j] == inner[2 * j]);
    assert(ops[2 + 2 * j] == inner[2 * j + 1]);
}

/// What was built is the list of those commands.
pub proof fn law_built_list_holds_each_vertex(
    verts: &Vec<PackedVertex>,
    compress: bool,
    r: Vec<u32>,
    j: int,
)
    requires
        call_ensures(display_list, (verts, compress), r),
        0 <= j < verts@.len(),
    ensures
        exists|ops: Seq<Op>|
            ops.len() == 2 * verts@.len() + 2 && ops[1 + 2 * j] == (
                FIFO_NORMAL,
                seq![verts@[j].normal],
            ) && places(ops[2 + 2 * j], verts@[j], compress) && #[trigger] stands(
                r@.skip(1),
                ops,
                1 + 2 * j,
            ) && stands(r@.skip(1), ops, 2 + 2 * j),
{
    let ops = mesh_ops(verts@, compress);
    law_mesh_list_gives_each_vertex(verts@, compress, j);
    law_display_list_holds_each_command(ops, 1 + 2 * j);
    law_display_list_holds_each_command(ops, 2 + 2 * j);
}

/// The number that a geometry command has in a display list, by the register that it is
/// written to.
pub open spec fn command_number(reg: u32) -> int {
    (reg - 0x0400_0400) / 4
}

/// A command is the same whether it is written to its register or listed by its number.
pub proof fn law_listed_commands_are_registers()
    ensures
        command_number(GFX_NORMAL) == FIFO_NORMAL,
        command_number(GFX_VERTEX16) == FIFO_VERTEX16,
        command_number(GFX_VERTEX16) + 1 == FIFO_VERTEX10,
        command_number(GFX_BEGIN) == FIFO_BEGIN,
        command_number(GFX_END) == FIFO_END,
        command_number(MATRIX_CONTROL) == 0x10,
        command_number(MATRIX_PUSH) == 0x11,
        command_number(MATRIX_POP) == 0x12,
        command_number(MATRIX_IDENTITY) == 0x15,
        command_number(MATRIX_MULT_4X4) == 0x18,
        command_number(MATRIX_TRANSLATE) == 0x1c,
        command_number(GFX_COLOR) == 0x20,
        command_number(GFX_NORMAL) == 0x21,
        command_number(GFX_VERTEX16) == 0x23,
        command_number(GFX_POLY_FORMAT) == 0x29,
        command_number(GFX_DIFFUSE_AMBIENT) == 0x30,
        command_number(GFX_SPECULAR_EMISSION) == 0x31,
        command_number(GFX_LIGHT_VECTOR) == 0x32,
        command_number(GFX_LIGHT_COLOR) == 0x33,
        command_number(GFX_BEGIN) == 0x40,
        command_number(GFX_END) == 0x41,
        command_number(GFX_FLUSH) == 0x50,
        command_number(GFX_VIEWPORT) == 0x60,
        command_number(GFX_POS_TEST) == 0x71,
{
}

/// The value of a hexadecimal digit, letters in upper case; none for another character.
pub open spec fn digit_value(c: char) -> int {
    if '0' <= c <= '9' {
        c as int - '0' as int
    } else if 'A' <= c <= 'F' {
        c as int - 'A' as int + 10
    } else {
        -1
    }
}

/// The number that hexadecimal digits write.
pub open spec fn hex_number(s: Seq<char>) -> int
    decreases s.len(),
{
    if s.len() == 0 {
        0
    } else {
        16 * hex_number(s.drop_last()) + digit_value(s.last())
    }
}

proof fn lemma_hex(w: nat, n: nat)
    ensures
        hex_digits(w, n).len() == n,
        exists|high: int|
            w == #[trigger] (high * sixteens(n)) + hex_number(hex_digits(w, n)) && 0 <= high,
        0 <= hex_number(hex_digits(w, n)) < sixteens(n),
    decreases n,
{
    if n == 0 {
        let high = w as int;
        assert(w == high * sixteens(n) + hex_number(hex_digits(w, n)));
    } else {
        let m = (n - 1) as nat;
        lemma_hex(w / 16, m);
        let init = hex_digits(w / 16, m);
        let all = hex_digits(w, n);
        assert(all.drop_last() =~= init);
        let d = (w % 16) as int;
        assert(digit_value(hex_digit(d)) == d);
        let high = choose|high: int|
            w / 16 == #[trigger] (high * sixteens(m)) + hex_number(init) && 0 <= high;
        assert(high * sixteens(n) == 16 * (high * sixteens(m))) by (nonlinear_arith)
            requires
                sixteens(n) == 16 * sixteens(m),
        ;
        assert(w == high * sixteens(n) + hex_number(all));
    }
}

/// Sixteen to the power `n`.
pub open spec fn sixteens(n: nat) -> int
    decreases n,
{
    if n == 0 {
        1
    } else {
        16 * sixteens((n - 1) as nat)
    }
}

/// A text with word `i` behind it: on a new line for the first word and every twelfth
/// behind it.
pub open spec fn with_word(text: Seq<char>, i: int, digits: Seq<char>) -> Seq<char> {
    text + (if i % 12 == 0 {
        "\n        "@
    } else {
        Seq::empty()
    }) + "0x"@ + digits + ","@
}

/// The text of a list gives its words in order, each as eight digits that write it.
pub proof fn law_words_are_written_in_hex(words: Seq<u32>, n: nat, i: int)
    requires
        0 <= i < n <= words.len(),
    ensures
        exists|digits: Seq<char>, rest: Seq<char>|
            words_text(words, n) == #[trigger] (with_word(words_text(words, i as nat), i, digits)
                + rest) && digits.len() == 8 && hex_number(digits) == words[i],
    decreases n,
{
    let w = words[i] as nat;
    let digits = hex_digits(w, 8);
    lemma_hex(w, 8);
    reveal_with_fuel(sixteens, 9);
    assert(sixteens(8) == 0x1_0000_0000);
    let high = choose|high: int|
        w == #[trigger] (high * sixteens(8)) + hex_number(digits) && 0 <= high;
    assert(high == 0) by (nonlinear_arith)
        requires
            0 <= high,
            high * 0x1_0000_0000 < 0x1_0000_0000,
    ;
    let text = words_text(words, i as nat);
    if i == n - 1 {
        let rest = Seq::<char>::empty();
        assert(words_text(words, n) =~= with_word(text, i, digits) + rest);
    } else {
        let m = (n - 1) as nat;
        law_words_are_written_in_hex(words, m, i);
        let (d, r) = choose|digits: Seq<char>, rest: Seq<char>|
            words_text(words, m) == #[trigger] (with_word(text, i, digits) + rest) && digits.len()
                == 8 && hex_number(digits) == words[i];
        let own = with_word(Seq::empty(), m as int, hex_digits(words[m as int] as nat, 8));
        let rest = r + own;
        assert(words_text(words, n) =~= with_word(text, i, d) + rest);
    }
}

/// The outward side of face `f` of a cube: its axis and whether it is the negative one.
/// Faces come front, back, right, left, top, bottom.
pub open spec fn outward(f: int) -> (int, bool) {
    if f == 0 {
        (2, false)
    } else if f == 1 {
        (2, true)
    } else if f == 2 {
        (0, false)
    } else if f == 3 {
        (0, true)
    } else if f == 4 {
        (1, false)
    } else {
        (1, true)
    }
}

/// A point of a cube's surface that is a corner of it.
pub open spec fn is_corner(h: F32Bits, p: Seq<F32Bits>) -> bool {
    p.len() == 3 && forall|i: int|
        0 <= i < 3 ==> #[trigger] p[i] == h || p[i] == h.negated()
}

/// Every corner of both triangles of a face lies on the face's side, and the two
/// triangles share their first corner and the corner across from it, so that between
/// them they hold all four.
pub proof fn law_cube_face_is_covered(half: F32Bits, r: DsMesh, f: int)
    requires
        call_ensures(DsMesh::cube, (half,), r),
        0 <= f < 6,
        half != half.negated(),
    ensures
        forall|k: int, j: int|
            #![trigger r.tris@[k]@[j]]
            2 * f <= k < 2 * f + 2 && 0 <= j < 3 ==> is_corner(half, r.tris@[k]@[j].pos@)
                && r.tris@[k]@[j].pos@[outward(f).0] == (if outward(f).1 {
                half.negated()
            } else {
                half
            }) && r.tris@[k]@[j].color == r.tris@[2 * f]@[0].color,
        r.tris@[2 * f + 1]@[0].pos@ == r.tris@[2 * f]@[0].pos@,
        r.tris@[2 * f + 1]@[1].pos@ == r.tris@[2 * f]@[2].pos@,
        r.tris@[2 * f]@[0].pos@ != r.tris@[2 * f]@[1].pos@,
        r.tris@[2 * f]@[1].pos@ != r.tris@[2 * f]@[2].pos@,
        r.tris@[2 * f]@[0].pos@ != r.tris@[2 * f]@[2].pos@,
        r.tris@[2 * f + 1]@[2].pos@ != r.tris@[2 * f]@[0].pos@,
        r.tris@[2 * f + 1]@[2].pos@ != r.tris@[2 * f]@[1].pos@,
        r.tris@[2 * f + 1]@[2].pos@ != r.tris@[2 * f]@[2].pos@,
{
    let a = r.tris@[2 * f];
    let b = r.tris@[2 * f + 1];
    assert(is_cube_tri(half, 2 * f, a));
    assert(is_cube_tri(half, 2 * f + 1, b));
    assert((2 * f) / 2 == f && (2 * f) % 2 == 0);
    assert((2 * f + 1) / 2 == f && (2 * f + 1) % 2 == 1);
    lemma_face(half, f);
    assert forall|k: int, j: int|
        #![trigger r.tris@[k]@[j]]
        2 * f <= k < 2 * f + 2 && 0 <= j < 3 implies is_corner(half, r.tris@[k]@[j].pos@)
        && r.tris@[k]@[j].pos@[outward(f).0] == (if outward(f).1 {
        half.negated()
    } else {
        half
    }) && r.tris@[k]@[j].color == r.tris@[2 * f]@[0].color by {
        assert(k == 2 * f || k == 2 * f + 1);
        assert(j == 0 || j == 1 || j == 2);
        let c = tri_corner(k % 2 == 1, j);
        assert(0 <= c < 4);
        assert(is_cube_vertex(half, k, j, r.tris@[k]@[j]));
        assert(r.tris@[k]@[j].pos@ == cube_corner(half, face_signs(f)[c]));
        assert(r.tris@[k]@[j].color@ == a@[0].color@);
        assert(r.tris@[k]@[j].color =~= a@[0].color);
    }
}

proof fn lemma_face(half: F32Bits, f: int)
    requires
        0 <= f < 6,
        half != half.negated(),
    ensures
        forall|c: int|
            0 <= c < 4 ==> is_corner(half, #[trigger] cube_corner(half, face_signs(f)[c]))
                && cube_corner(half, face_signs(f)[c])[outward(f).0] == (if outward(f).1 {
                half.negated()
            } else {
                half
            }),
        forall|c: int, d: int|
            0 <= c < d < 4 ==> #[trigger] cube_corner(half, face_signs(f)[c])
                != #[trigger] cube_corner(half, face_signs(f)[d]),
{
    let s = face_signs(f);
    assert forall|c: int| 0 <= c < 4 implies is_corner(half, #[trigger] cube_corner(half, s[c]))
        && cube_corner(half, s[c])[outward(f).0] == (if outward(f).1 {
        half.negated()
    } else {
        half
    }) by {
        let p = cube_corner(half, s[c]);
        assert(p[0] == side(half, s[c].0) && p[1] == side(half, s[c].1) && p[2] == side(
            half,
            s[c].2,
        ));
        assert(c == 0 || c == 1 || c == 2 || c == 3);
    }
    assert forall|c: int, d: int| 0 <= c < d < 4 implies #[trigger] cube_corner(half, s[c])
        != #[trigger] cube_corner(half, s[d]) by {
        let p = cube_corner(half, s[c]);
        let q = cube_corner(half, s[d]);
        assert(p[0] == side(half, s[c].0) && p[1] == side(half, s[c].1) && p[2] == side(
            half,
            s[c].2,
        ));
        assert(q[0] == side(half, s[d].0) && q[1] == side(half, s[d].1) && q[2] == side(
            half,
            s[d].2,
        ));
        assert(c == 0 || c == 1 || c == 2);
        assert(d == 1 || d == 2 || d == 3);
    }
}

} // verus!
