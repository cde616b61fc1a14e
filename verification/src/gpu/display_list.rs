//! Display lists: command blocks that the geometry engine consumes in one go.
//!
//! The first word gives the length of the body in words. The body is a row of
//! groups: a word with four command numbers, padded with zeros, then the arguments
//! of those commands in order.

use crate::bytes::{
    lemma_u32s_at, lemma_u32s_le, push_u32, push_u32s, read_u32, read_u32s, u32_at, u32_le, u32s_at, u32s_le,
};
use crate::float::F32Bits;
use crate::gpu::words::{half_of, pack10, vertex10, vertex16, xy_word, GL_TRIANGLES};
use crate::scene::wire::{
    floats_at, floats_le, holds_at, lemma_floats_at, lemma_floats_len, lemma_holds_split,
    lemma_holds_whole, lemma_u32_holds, push_vec3,
};
use crate::strings::push_text;
use vstd::prelude::*;

verus! {

/// Padding; takes no argument.
pub const FIFO_NOP: u8 = 0x00;

/// Normal; takes one argument.
pub const FIFO_NORMAL: u8 = 0x21;

/// Full-precision vertex; takes two arguments.
pub const FIFO_VERTEX16: u8 = 0x23;

/// Compressed vertex; takes one argument.
pub const FIFO_VERTEX10: u8 = 0x24;

/// Start of a primitive; takes one argument.
pub const FIFO_BEGIN: u8 = 0x40;

/// End of a primitive; takes no argument.
pub const FIFO_END: u8 = 0x41;

/// Four command numbers in one word, the first in the low byte.
pub open spec fn fifo_word(a: u8, b: u8, c: u8, d: u8) -> u32 {
    (a + b * 0x100 + c * 0x1_0000 + d * 0x100_0000) as u32
}

/// Pack four command numbers into one word.
pub fn fifo_pack(cmds: [u8; 4]) -> (r: u32)
    ensures
        r == fifo_word(cmds@[0], cmds@[1], cmds@[2], cmds@[3]),
{
    cmds[0] as u32 + cmds[1] as u32 * 0x100 + cmds[2] as u32 * 0x1_0000 + cmds[3] as u32
        * 0x100_0000
}

/// A command and its arguments.
pub type Op = (u8, Seq<u32>);

/// Commands with their arguments as sequences.
pub open spec fn op_views(v: Seq<(u8, Vec<u32>)>) -> Seq<Op> {
    Seq::new(v.len(), |i: int| (v[i].0, v[i].1@))
}

/// The command at `i`, or padding behind the end.
pub open spec fn id_at(ops: Seq<Op>, i: int) -> u8 {
    if i < ops.len() {
        ops[i].0
    } else {
        FIFO_NOP
    }
}

/// The arguments of all commands, in order.
pub open spec fn args_of(ops: Seq<Op>) -> Seq<u32>
    decreases ops.len(),
{
    if ops.len() == 0 {
        Seq::empty()
    } else {
        args_of(ops.drop_last()) + ops.last().1
    }
}

/// The number of commands in the next group.
pub open spec fn group_len(ops: Seq<Op>) -> int {
    if ops.len() < 4 {
        ops.len() as int
    } else {
        4
    }
}

/// The body of a display list.
pub open spec fn packed(ops: Seq<Op>) -> Seq<u32>
    decreases ops.len(),
{
    if ops.len() == 0 {
        Seq::empty()
    } else {
        let n = group_len(ops);
        seq![fifo_word(id_at(ops, 0), id_at(ops, 1), id_at(ops, 2), id_at(ops, 3))] + args_of(
            ops.take(n),
        ) + packed(ops.skip(n))
    }
}

/// The display list of these commands: the body's length, then the body.
pub open spec fn display_list_of(ops: Seq<Op>) -> Seq<u32> {
    seq![packed(ops).len() as u32] + packed(ops)
}

/// Append the arguments of the commands from `from` to `to`.
fn push_args(body: &mut Vec<u32>, ops: &Vec<(u8, Vec<u32>)>, from: usize, to: usize)
    requires
        from <= to <= ops.len(),
    ensures
        final(body)@ == old(body)@ + args_of(op_views(ops@).subrange(from as int, to as int)),
{
    let ghost all = op_views(ops@);
    let ghost start = body@;
    let mut i: usize = from;
    assert(all.subrange(from as int, from as int) =~= Seq::empty());
    assert(body@ =~= start + args_of(all.subrange(from as int, from as int)));
    while i < to
        invariant
            from <= i <= to <= ops.len(),
            all == op_views(ops@),
            body@ == start + args_of(all.subrange(from as int, i as int)),
        decreases to - i,
    {
        let ghost mid = body@;
        let args: &Vec<u32> = &ops[i].1;
        let mut k: usize = 0;
        assert(args@.take(0) =~= Seq::empty());
        assert(body@ =~= mid + args@.take(0));
        while k < args.len()
            invariant
                k <= args.len(),
                body@ == mid + args@.take(k as int),
            decreases args.len() - k,
        {
            body.push(args[k]);
            assert(args@.take(k + 1) =~= args@.take(k as int).push(args@[k as int]));
            assert(body@ =~= mid + args@.take(k + 1));
            k = k + 1;
        }
        proof {
            assert(args@.take(args.len() as int) =~= args@);
            let part = all.subrange(from as int, i + 1);
            assert(part.drop_last() =~= all.subrange(from as int, i as int));
            assert(part.last() == all[i as int]);
            assert(body@ =~= start + args_of(part));
        }
        i = i + 1;
    }
}

/// Encode commands with their arguments into a display list.
pub fn pack_display_list(ops: &Vec<(u8, Vec<u32>)>) -> (r: Vec<u32>)
    ensures
        r@ == display_list_of(op_views(ops@)),
{
    let ghost all = op_views(ops@);
    let mut body: Vec<u32> = Vec::new();
    let mut i: usize = 0;
    assert(all.skip(0) =~= all);
    assert(body@ + packed(all.skip(0)) =~= packed(all));
    while i < ops.len()
        invariant
            i <= ops.len(),
            all == op_views(ops@),
            body@ + packed(all.skip(i as int)) == packed(all),
        decreases ops.len() - i,
    {
        let ghost start = body@;
        let ghost rest = all.skip(i as int);
        let left: usize = ops.len() - i;
        let n: usize = if left < 4 {
            left
        } else {
            4
        };
        let ids: [u8; 4] = [
            ops[i].0,
            if left > 1 {
                ops[i + 1].0
            } else {
                FIFO_NOP
            },
            if left > 2 {
                ops[i + 2].0
            } else {
                FIFO_NOP
            },
            if left > 3 {
                ops[i + 3].0
            } else {
                FIFO_NOP
            },
        ];
        body.push(fifo_pack(ids));
        push_args(&mut body, ops, i, i + n);
        proof {
            assert(rest.len() == left);
            assert(rest.take(n as int) =~= all.subrange(i as int, i + n));
            assert(rest.skip(n as int) =~= all.skip(i + n));
            let w = fifo_word(id_at(rest, 0), id_at(rest, 1), id_at(rest, 2), id_at(rest, 3));
            assert(body@ =~= start + (seq![w] + args_of(rest.take(n as int))));
            assert(start + packed(rest) =~= body@ + packed(all.skip(i + n)));
        }
        i = i + n;
    }
    proof {
        assert(all.skip(ops.len() as int) =~= Seq::empty());
        assert(body@ + packed(all.skip(ops.len() as int)) =~= body@);
    }
    let len: u32 = body.len() as u32;
    let mut out: Vec<u32> = Vec::new();
    out.push(len);
    out.append(&mut body);
    assert(out@ =~= display_list_of(all));
    out
}

/// A vertex in the engine's number formats.
#[derive(Clone, Copy)]
pub struct PackedVertex {
    /// The packed normal.
    pub normal: u32,
    /// Position with twelve fractional bits.
    pub pos16: [i16; 3],
    /// Position with six fractional bits.
    pub pos10: [i32; 3],
}

/// The commands of one vertex: its normal, then its position.
pub open spec fn vertex_ops(v: PackedVertex, compress: bool) -> Seq<Op> {
    seq![
        (FIFO_NORMAL, seq![v.normal]),
        if compress {
            (
                FIFO_VERTEX10,
                seq![
                    pack10(
                        v.pos10@[0] as int % 0x400,
                        v.pos10@[1] as int % 0x400,
                        v.pos10@[2] as int % 0x400,
                    ) as u32,
                ],
            )
        } else {
            (
                FIFO_VERTEX16,
                seq![xy_word(v.pos16@[0], v.pos16@[1]), half_of(v.pos16@[2]) as u32],
            )
        },
    ]
}

/// The commands of several vertices.
pub open spec fn vertices_ops(v: Seq<PackedVertex>, compress: bool) -> Seq<Op>
    decreases v.len(),
{
    if v.len() == 0 {
        Seq::empty()
    } else {
        vertices_ops(v.drop_last(), compress) + vertex_ops(v.last(), compress)
    }
}

/// The commands of a lit triangle list.
pub open spec fn mesh_ops(v: Seq<PackedVertex>, compress: bool) -> Seq<Op> {
    seq![(FIFO_BEGIN, seq![GL_TRIANGLES])] + vertices_ops(v, compress) + seq![
        (FIFO_END, Seq::<u32>::empty()),
    ]
}

/// Build the display list of a lit triangle list.
pub fn display_list(verts: &Vec<PackedVertex>, compress: bool) -> (r: Vec<u32>)
    ensures
        r@ == display_list_of(mesh_ops(verts@, compress)),
{
    let mut ops: Vec<(u8, Vec<u32>)> = Vec::new();
    let mut begin: Vec<u32> = Vec::new();
    begin.push(GL_TRIANGLES);
    assert(begin@ =~= seq![GL_TRIANGLES]);
    ops.push((FIFO_BEGIN, begin));
    let ghost head: Seq<Op> = seq![(FIFO_BEGIN, seq![GL_TRIANGLES])];
    let mut i: usize = 0;
    assert(verts@.take(0) =~= Seq::empty());
    assert(op_views(ops@) =~= head + vertices_ops(verts@.take(0), compress));
    while i < verts.len()
        invariant
            i <= verts.len(),
            op_views(ops@) == head + vertices_ops(verts@.take(i as int), compress),
        decreases verts.len() - i,
    {
        let ghost before = op_views(ops@);
        let v: PackedVertex = verts[i];
        let mut n: Vec<u32> = Vec::new();
        n.push(v.normal);
        assert(n@ =~= seq![v.normal]);
        ops.push((FIFO_NORMAL, n));
        let mut p: Vec<u32> = Vec::new();
        if compress {
            p.push(vertex10(v.pos10[0], v.pos10[1], v.pos10[2]));
            assert(p@ =~= vertex_ops(v, compress)[1].1);
            ops.push((FIFO_VERTEX10, p));
        } else {
            let (xy, z) = vertex16(v.pos16[0], v.pos16[1], v.pos16[2]);
            p.push(xy);
            p.push(z);
            assert(p@ =~= vertex_ops(v, compress)[1].1);
            ops.push((FIFO_VERTEX16, p));
        }
        proof {
            let part = verts@.take(i + 1);
            assert(part.drop_last() =~= verts@.take(i as int));
            assert(part.last() == v);
            assert(op_views(ops@) =~= before + vertex_ops(v, compress));
            assert(op_views(ops@) =~= head + vertices_ops(part, compress));
        }
        i = i + 1;
    }
    let ghost before = op_views(ops@);
    let end: Vec<u32> = Vec::new();
    assert(end@ =~= Seq::<u32>::empty());
    ops.push((FIFO_END, end));
    proof {
        assert(verts@.take(verts.len() as int) =~= verts@);
        assert(op_views(ops@) =~= before.push((FIFO_END, Seq::<u32>::empty())));
        assert(op_views(ops@) =~= mesh_ops(verts@, compress));
    }
    pack_display_list(&ops)
}

proof fn lemma_args_take(ops: Seq<Op>, n: int)
    requires
        0 <= n <= ops.len(),
    ensures
        args_of(ops) == args_of(ops.take(n)) + args_of(ops.skip(n)),
    decreases ops.len(),
{
    if n == ops.len() {
        assert(ops.take(n) =~= ops);
        assert(ops.skip(n) =~= Seq::empty());
        assert(args_of(ops.take(n)) + args_of(ops.skip(n)) =~= args_of(ops));
    } else {
        let init = ops.drop_last();
        lemma_args_take(init, n);
        assert(init.take(n) =~= ops.take(n));
        assert(ops.skip(n).drop_last() =~= init.skip(n));
        assert(ops.skip(n).last() == ops.last());
        assert(args_of(ops.take(n)) + args_of(ops.skip(n)) =~= args_of(ops));
    }
}

/// A display list's body has one word per four commands, rounded up, and one per
/// argument; its first word says so.
pub proof fn law_display_list_length(ops: Seq<Op>)
    ensures
        display_list_of(ops).len() == 1 + (ops.len() + 3) / 4 + args_of(ops).len(),
        display_list_of(ops).len() <= u32::MAX ==> display_list_of(ops)[0] == display_list_of(
            ops,
        ).len() - 1,
{
    lemma_packed_len(ops);
}

proof fn lemma_packed_len(ops: Seq<Op>)
    ensures
        packed(ops).len() == (ops.len() + 3) / 4 + args_of(ops).len(),
    decreases ops.len(),
{
    if ops.len() > 0 {
        let n = group_len(ops);
        lemma_packed_len(ops.skip(n));
        lemma_args_take(ops, n);
    }
}

proof fn lemma_vertices_args(v: Seq<PackedVertex>, compress: bool)
    ensures
        vertices_ops(v, compress).len() == 2 * v.len(),
        args_of(vertices_ops(v, compress)).len() == if compress {
            2 * v.len()
        } else {
            3 * v.len()
        },
    decreases v.len(),
{
    if v.len() > 0 {
        let init = vertices_ops(v.drop_last(), compress);
        let last = vertex_ops(v.last(), compress);
        lemma_vertices_args(v.drop_last(), compress);
        lemma_args_take(init + last, init.len() as int);
        assert((init + last).take(init.len() as int) =~= init);
        assert((init + last).skip(init.len() as int) =~= last);
        reveal_with_fuel(args_of, 3);
        assert(last.drop_last().last() == last[0]);
        assert(args_of(last).len() == last[0].1.len() + last[1].1.len());
    }
}

/// The number of words of a mesh's display list.
proof fn lemma_mesh_len(v: Seq<PackedVertex>, compress: bool)
    ensures
        mesh_ops(v, compress).len() == 2 * v.len() + 2,
        args_of(mesh_ops(v, compress)).len() == 1 + if compress {
            2 * v.len()
        } else {
            3 * v.len()
        },
{
    let head: Seq<Op> = seq![(FIFO_BEGIN, seq![GL_TRIANGLES])];
    let mid = vertices_ops(v, compress);
    let tail: Seq<Op> = seq![(FIFO_END, Seq::<u32>::empty())];
    let all = mesh_ops(v, compress);
    lemma_vertices_args(v, compress);
    lemma_args_take(all, 1);
    assert(all.take(1) =~= head);
    assert(all.skip(1) =~= mid + tail);
    lemma_args_take(mid + tail, mid.len() as int);
    assert((mid + tail).take(mid.len() as int) =~= mid);
    assert((mid + tail).skip(mid.len() as int) =~= tail);
    reveal_with_fuel(args_of, 2);
    assert(args_of(head).len() == 1);
    assert(args_of(tail).len() == 0);
}

/// Compressed vertices save one word each.
pub proof fn law_compression_saves_a_word_per_vertex(v: Seq<PackedVertex>)
    ensures
        display_list_of(mesh_ops(v, false)).len() == display_list_of(mesh_ops(v, true)).len()
            + v.len(),
{
    lemma_mesh_len(v, false);
    lemma_mesh_len(v, true);
    law_display_list_length(mesh_ops(v, false));
    law_display_list_length(mesh_ops(v, true));
}

/// The upper-case hexadecimal digit for `d`.
pub open spec fn hex_digit(d: int) -> char {
    if d < 10 {
        ('0' as int + d) as char
    } else {
        ('A' as int + d - 10) as char
    }
}

/// The low `n` hexadecimal digits of `w`.
pub open spec fn hex_digits(w: nat, n: nat) -> Seq<char>
    decreases n,
{
    if n == 0 {
        Seq::empty()
    } else {
        hex_digits(w / 16, (n - 1) as nat).push(hex_digit((w % 16) as int))
    }
}

/// Append the low `n` hexadecimal digits of `w`.
fn push_hex(s: &mut String, w: u32, n: u32)
    ensures
        final(s)@ == old(s)@ + hex_digits(w as nat, n as nat),
    decreases n,
{
    if n == 0 {
        assert(s@ =~= old(s)@ + hex_digits(w as nat, 0));
        return;
    }
    push_hex(s, w / 16, n - 1);
    let d: u8 = (w % 16) as u8;
    let c: char = if d < 10 {
        (48 + d) as char
    } else {
        (65 + (d - 10)) as char
    };
    s.push(c);
    assert(s@ =~= old(s)@ + hex_digits(w as nat, n as nat));
}

/// The first `n` words as the body of a source array, twelve to a line.
pub open spec fn words_text(words: Seq<u32>, n: nat) -> Seq<char>
    decreases n,
{
    if n == 0 {
        Seq::empty()
    } else {
        words_text(words, (n - 1) as nat) + (if (n - 1) % 12 == 0 {
            "\n        "@
        } else {
            Seq::empty()
        }) + "0x"@ + hex_digits(words[n - 1] as nat, 8) + ","@
    }
}

/// Format a display list as the body of a source array: hexadecimal, twelve words to
/// a line.
pub fn format_words_rust(words: &[u32]) -> (s: String)
    ensures
        s@ == words_text(words@, words@.len()),
{
    let mut s: String = String::new();
    let mut i: usize = 0;
    assert(s@ =~= words_text(words@, 0));
    while i < words.len()
        invariant
            i <= words.len(),
            s@ == words_text(words@, i as nat),
        decreases words.len() - i,
    {
        let ghost before = s@;
        if i % 12 == 0 {
            push_text(&mut s, "\n        ");
        }
        push_text(&mut s, "0x");
        push_hex(&mut s, words[i], 8);
        push_text(&mut s, ",");
        assert(s@ =~= words_text(words@, (i + 1) as nat));
        i = i + 1;
    }
    s
}

/// Serialise a display list to little-endian bytes.
pub fn words_to_le_bytes(words: &[u32]) -> (r: Vec<u8>)
    ensures
        r@ == u32s_le(words@),
{
    let mut out: Vec<u8> = Vec::new();
    push_u32s(&mut out, words);
    assert(out@ =~= u32s_le(words@));
    out
}

/// ASCII `"BDL1"`, low byte first.
pub const ASSET_MAGIC: u32 = 0x314c_4442;

/// Extension of a compiled display list.
pub const ASSET_EXT: &'static str = "dl";

/// A baked model: its display list and its bounds.
pub struct Model {
    pub words: Vec<u32>,
    /// Smallest and largest corner of the bounding box.
    pub aabb: [[F32Bits; 3]; 2],
}

/// The written form of a model: magic, bounds, word count, words.
pub open spec fn model_le(words: Seq<u32>, min: Seq<F32Bits>, max: Seq<F32Bits>) -> Seq<u8> {
    u32_le(ASSET_MAGIC) + (floats_le(min) + (floats_le(max) + (u32_le(words.len() as u32)
        + u32s_le(words))))
}

/// Serialise a model to the asset format.
pub fn model_to_le_bytes(model: &Model) -> (r: Vec<u8>)
    ensures
        r@ == model_le(model.words@, model.aabb@[0]@, model.aabb@[1]@),
{
    let mut out: Vec<u8> = Vec::new();
    push_u32(&mut out, ASSET_MAGIC);
    push_vec3(&mut out, &model.aabb[0]);
    push_vec3(&mut out, &model.aabb[1]);
    push_u32(&mut out, model.words.len() as u32);
    push_u32s(&mut out, model.words.as_slice());
    assert(out@ =~= model_le(model.words@, model.aabb@[0]@, model.aabb@[1]@));
    out
}

/// `s` starts with a whole model.
pub open spec fn is_model(s: Seq<u8>) -> bool {
    &&& s.len() >= 32
    &&& u32_at(s, 0) == ASSET_MAGIC
    &&& 32 + 4 * u32_at(s, 28) <= s.len()
}

/// Three floats from offset `off` on.
fn read_vec3(bytes: &[u8], off: usize) -> (r: [F32Bits; 3])
    requires
        off + 12 <= bytes.len(),
    ensures
        r@ == floats_at(bytes@, off as int, 3),
{
    let r: [F32Bits; 3] = [
        F32Bits(read_u32(bytes, off)),
        F32Bits(read_u32(bytes, off + 4)),
        F32Bits(read_u32(bytes, off + 8)),
    ];
    assert(r@ =~= floats_at(bytes@, off as int, 3));
    r
}

/// Parse a model asset; `None` on a short header, a wrong magic or a word count that
/// does not fit.
pub fn parse_dl_asset(bytes: &[u8]) -> (r: Option<(Vec<u32>, [F32Bits; 3], [F32Bits; 3])>)
    ensures
        r is Some <==> is_model(bytes@),
        r matches Some((words, min, max)) ==> {
            &&& words@ == u32s_at(bytes@, 32, u32_at(bytes@, 28) as nat)
            &&& min@ == floats_at(bytes@, 4, 3)
            &&& max@ == floats_at(bytes@, 16, 3)
        },
{
    if bytes.len() < 32 || read_u32(bytes, 0) != ASSET_MAGIC {
        return None;
    }
    let count: u32 = read_u32(bytes, 28);
    let room: usize = (bytes.len() - 32) / 4;
    if count as u64 > room as u64 {
        return None;
    }
    let min: [F32Bits; 3] = read_vec3(bytes, 4);
    let max: [F32Bits; 3] = read_vec3(bytes, 16);
    Some((read_u32s(bytes, 32, count as usize), min, max))
}

/// Every written model parses back to its parts, whatever follows it.
pub proof fn law_model_round_trip(
    words: Seq<u32>,
    min: Seq<F32Bits>,
    max: Seq<F32Bits>,
    tail: Seq<u8>,
)
    requires
        words.len() <= u32::MAX,
        min.len() == 3,
        max.len() == 3,
    ensures
        ({
            let s = model_le(words, min, max) + tail;
            &&& is_model(s)
            &&& u32s_at(s, 32, u32_at(s, 28) as nat) == words
            &&& floats_at(s, 4, 3) == min
            &&& floats_at(s, 16, 3) == max
        }),
{
    let s = model_le(words, min, max) + tail;
    lemma_floats_len(min);
    lemma_floats_len(max);
    lemma_u32s_le(words);
    lemma_holds_whole(s);
    lemma_holds_split(s, 0, model_le(words, min, max), tail);
    let c = u32_le(words.len() as u32) + u32s_le(words);
    let b = floats_le(max) + c;
    let a = floats_le(min) + b;
    lemma_holds_split(s, 0, u32_le(ASSET_MAGIC), a);
    lemma_u32_holds(s, 0, ASSET_MAGIC);
    lemma_holds_split(s, 4, floats_le(min), b);
    lemma_floats_at(s, 4, min);
    lemma_holds_split(s, 16, floats_le(max), c);
    lemma_floats_at(s, 16, max);
    lemma_holds_split(s, 28, u32_le(words.len() as u32), u32s_le(words));
    lemma_u32_holds(s, 28, words.len() as u32);
    assert(s.subrange(32, 32int + 4 * words.len()) == u32s_le(words)) by {
        reveal(holds_at);
    }
    lemma_u32s_at(s, 32, words);
}

/// A written model that is cut short anywhere no longer parses.
pub proof fn law_truncated_model_is_rejected(
    words: Seq<u32>,
    min: Seq<F32Bits>,
    max: Seq<F32Bits>,
    keep: int,
)
    requires
        words.len() <= u32::MAX,
        min.len() == 3,
        max.len() == 3,
        0 <= keep < model_le(words, min, max).len(),
    ensures
        !is_model(model_le(words, min, max).subrange(0, keep)),
{
    let s = model_le(words, min, max);
    let t = s.subrange(0, keep);
    law_model_round_trip(words, min, max, Seq::empty());
    assert(s + Seq::<u8>::empty() =~= s);
    lemma_floats_len(min);
    lemma_floats_len(max);
    lemma_u32s_le(words);
    assert(u32s_at(s, 32, u32_at(s, 28) as nat).len() == words.len());
    if keep >= 32 {
        assert(u32_at(t, 28) == u32_at(s, 28));
    }
}

} // verus!
