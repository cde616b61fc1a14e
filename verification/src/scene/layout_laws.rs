//! Where everything stands in the bytes of a baked zone.

use crate::bake::asset_laws::{le16, le32, spells};
use crate::bake::scene2bin::{encode, zone_view, Connection, Space};
use crate::bytes::{u16_at, u16_le, u32_at, u32_le};
use crate::float::F32Bits;
use crate::scene::asset::{
    camera_mode, camera_params, header_le, instance_at, instance_fits, instance_le, instances_le,
    lemma_header_at, lemma_instance_at, material_at, mesh_name, CameraMode, InstanceView, MAGIC,
};
use crate::scene::wire::{
    floats_at, floats_le, holds_at, lemma_floats_at, lemma_floats_len, lemma_holds_split,
    lemma_holds_whole, lemma_text_at, lemma_u32_holds, points_at, text_le,
};
use crate::scene::zone::{
    conn_fits, conn_le, conns_le, zone_fits, zone_le, zone_tail_le, ConnView, ZoneView,
    ZONE_VERSION,
};
use vstd::prelude::*;
use vstd::utf8::encode_utf8;

verus! {

/// How many bytes a text takes: two for its length, then its own.
pub open spec fn text_size(t: Seq<char>) -> int {
    2int + encode_utf8(t).len()
}

/// How many bytes an instance takes.
pub open spec fn instance_size(v: InstanceView) -> int {
    text_size(mesh_name(v.mesh)) + text_size(v.role) + 49 + 8 * v.path.len()
}

/// Where instance `k` starts.
pub open spec fn instance_start(v: Seq<InstanceView>, k: int) -> int
    decreases k,
{
    if k <= 0 {
        28
    } else {
        instance_start(v, k - 1) + instance_size(v[k - 1])
    }
}

/// How many bytes a connection takes.
pub open spec fn conn_size(c: ConnView) -> int {
    text_size(c.neighbour) + 21
}

/// Where connection `k` starts, behind what comes before the first.
pub open spec fn conn_start(v: Seq<ConnView>, from: int, k: int) -> int
    decreases k,
{
    if k <= 0 {
        from
    } else {
        conn_start(v, from, k - 1) + conn_size(v[k - 1])
    }
}

/// The text stands at `p`, its length first.
pub open spec fn has_text(s: Seq<u8>, p: int, t: Seq<char>) -> bool {
    &&& le16(s, p) == encode_utf8(t).len()
    &&& s.subrange(p + 2, p + 2 + encode_utf8(t).len()) == encode_utf8(t)
}

/// These floats stand at `p`.
pub open spec fn has_floats(s: Seq<u8>, p: int, v: Seq<F32Bits>) -> bool {
    forall|i: int| 0 <= i < v.len() ==> le32(s, p + 4 * i) == (#[trigger] v[i]).0
}

/// The instance stands at `p`: mesh, role, position, rotation, scale, whether it has a
/// material, the two colours, flags, and its waypoints behind their number.
pub open spec fn has_instance(s: Seq<u8>, p: int, v: InstanceView) -> bool {
    let q = p + text_size(mesh_name(v.mesh));
    let b = q + text_size(v.role);
    &&& has_text(s, p, mesh_name(v.mesh))
    &&& has_text(s, q, v.role)
    &&& has_floats(s, b, v.pos)
    &&& has_floats(s, b + 12, v.rot)
    &&& has_floats(s, b + 24, v.scale)
    &&& s[b + 36] != 0 <==> v.material is Some
    &&& v.material matches Some((d, a)) ==> s.subrange(b + 37, b + 40) == d && s.subrange(
        b + 40,
        b + 43,
    ) == a
    &&& le32(s, b + 43) == v.flags
    &&& le16(s, b + 47) == v.path.len()
    &&& forall|i: int|
        0 <= i < v.path.len() ==> le32(s, b + 49 + 8 * i) == (#[trigger] v.path[i]).0.0 && le32(
            s,
            b + 53 + 8 * i,
        ) == v.path[i].1.0
}

/// The connection stands at `p`: neighbour, side, the segment from low to high, the
/// move between the frames, and its lock.
pub open spec fn has_conn(s: Seq<u8>, p: int, c: ConnView) -> bool {
    let b = p + text_size(c.neighbour);
    &&& has_text(s, p, c.neighbour)
    &&& s[b] == c.side
    &&& has_floats(s, b + 1, c.span)
    &&& le32(s, b + 17) == c.gate
}

/// The mode number of a camera.
pub open spec fn mode_of(c: CameraMode) -> int {
    match c {
        CameraMode::Follow { .. } => 0,
        CameraMode::TopDown { .. } => 1,
        CameraMode::Rail2_5D { .. } => 2,
        CameraMode::CaptureFraming => 3,
    }
}

/// The numbers of a camera, as far as it has any.
pub open spec fn camera_numbers(c: CameraMode) -> Seq<F32Bits> {
    match c {
        CameraMode::Follow { height, dist, pitch } => seq![height, dist, pitch],
        CameraMode::TopDown { height } => seq![height],
        CameraMode::Rail2_5D { height, dist, pitch } => seq![height, dist, pitch],
        CameraMode::CaptureFraming => Seq::empty(),
    }
}

proof fn lemma_le(s: Seq<u8>, p: int)
    ensures
        le16(s, p) == u16_at(s, p),
        le32(s, p) == u32_at(s, p),
{
}

proof fn lemma_floats(s: Seq<u8>, p: int, v: Seq<F32Bits>)
    requires
        floats_at(s, p, v.len()) == v,
    ensures
        has_floats(s, p, v),
{
    assert forall|i: int| 0 <= i < v.len() implies le32(s, p + 4 * i) == (#[trigger] v[i]).0 by {
        lemma_le(s, p + 4 * i);
        assert(floats_at(s, p, v.len())[i] == v[i]);
    }
}

proof fn lemma_text(s: Seq<u8>, p: int, t: Seq<char>)
    requires
        holds_at(s, p, text_le(t)),
        encode_utf8(t).len() <= 0xffff,
    ensures
        has_text(s, p, t),
        text_le(t).len() == text_size(t),
{
    let n = encode_utf8(t).len();
    lemma_holds_split(s, p, u16_le(n as u16), encode_utf8(t));
    crate::scene::wire::lemma_u16_holds(s, p, n as u16);
    lemma_le(s, p);
    lemma_stands(s, p + 2, encode_utf8(t));
}

proof fn lemma_stands(s: Seq<u8>, p: int, part: Seq<u8>)
    requires
        holds_at(s, p, part),
    ensures
        s.subrange(p, p + part.len()) == part,
{
    reveal(holds_at);
}

proof fn lemma_instance(s: Seq<u8>, p: int, v: InstanceView)
    requires
        holds_at(s, p, instance_le(v)),
        instance_fits(v),
    ensures
        has_instance(s, p, v),
        instance_le(v).len() == instance_size(v),
{
    let mesh = text_le(mesh_name(v.mesh));
    let rest = text_le(v.role) + crate::scene::asset::instance_body_le(v);
    lemma_holds_split(s, p, mesh, rest);
    let q = p + mesh.len();
    lemma_holds_split(s, q, text_le(v.role), crate::scene::asset::instance_body_le(v));
    lemma_text(s, p, mesh_name(v.mesh));
    lemma_text(s, q, v.role);
    lemma_text_at(s, p, mesh_name(v.mesh));
    lemma_text_at(s, q, v.role);
    lemma_instance_at(s, p, v);
    let b = q + text_size(v.role);
    assert(instance_at(s, p) == Some((v, p + instance_le(v).len())));
    lemma_floats(s, b, v.pos);
    lemma_floats(s, b + 12, v.rot);
    lemma_floats(s, b + 24, v.scale);
    lemma_le(s, b + 43);
    lemma_le(s, b + 47);
    assert(v.material == material_at(s, b + 36));
    let n = v.path.len();
    assert(points_at(s, b + 49, n) == v.path);
    assert forall|i: int| 0 <= i < n implies le32(s, b + 49 + 8 * i) == (#[trigger] v.path[i]).0.0
        && le32(s, b + 53 + 8 * i) == v.path[i].1.0 by {
        assert(points_at(s, b + 49, n)[i] == v.path[i]);
        lemma_le(s, b + 49 + 8 * i);
        lemma_le(s, b + 53 + 8 * i);
    }
}

proof fn lemma_instances(s: Seq<u8>, v: Seq<InstanceView>)
    requires
        holds_at(s, 28, instances_le(v)),
        forall|i: int| 0 <= i < v.len() ==> instance_fits(#[trigger] v[i]),
    ensures
        28 + instances_le(v).len() == instance_start(v, v.len() as int),
        forall|k: int|
            0 <= k < v.len() ==> has_instance(s, instance_start(v, k), #[trigger] v[k]),
    decreases v.len(),
{
    if v.len() > 0 {
        let init = v.drop_last();
        lemma_holds_split(s, 28, instances_le(init), instance_le(v.last()));
        lemma_instances(s, init);
        lemma_instance(s, 28int + instances_le(init).len(), v.last());
        let n = init.len() as int;
        assert forall|k: int| 0 <= k <= n implies #[trigger] instance_start(v, k) == instance_start(
            init,
            k,
        ) by {
            lemma_start_init(v, k);
        }
        assert forall|k: int| 0 <= k < v.len() implies has_instance(
            s,
            instance_start(v, k),
            #[trigger] v[k],
        ) by {
            assert(instance_start(v, k) == instance_start(init, k));
            if k < n {
                assert(init[k] == v[k]);
            }
        }
        assert(instance_start(v, n) == instance_start(init, n));
    }
}

proof fn lemma_start_init(v: Seq<InstanceView>, k: int)
    requires
        v.len() > 0,
        0 <= k < v.len(),
    ensures
        instance_start(v.drop_last(), k) == instance_start(v, k),
    decreases k,
{
    if k > 0 {
        lemma_start_init(v, k - 1);
    }
}

proof fn lemma_conn(s: Seq<u8>, p: int, c: ConnView)
    requires
        holds_at(s, p, conn_le(c)),
        conn_fits(c),
    ensures
        has_conn(s, p, c),
        conn_le(c).len() == conn_size(c),
{
    let t = text_le(c.neighbour);
    let gate = u32_le(c.gate);
    let rest = floats_le(c.span) + gate;
    lemma_holds_split(s, p, t, seq![c.side] + rest);
    lemma_text(s, p, c.neighbour);
    let b = p + t.len();
    lemma_holds_split(s, b, seq![c.side], rest);
    lemma_stands(s, b, seq![c.side]);
    assert(s.subrange(b, b + 1)[0] == s[b]);
    lemma_holds_split(s, b + 1, floats_le(c.span), gate);
    lemma_floats_len(c.span);
    lemma_floats_at(s, b + 1, c.span);
    lemma_floats(s, b + 1, c.span);
    lemma_u32_holds(s, b + 17, c.gate);
    lemma_le(s, b + 17);
}

proof fn lemma_conns(s: Seq<u8>, from: int, v: Seq<ConnView>)
    requires
        holds_at(s, from, conns_le(v)),
        forall|i: int| 0 <= i < v.len() ==> conn_fits(#[trigger] v[i]),
    ensures
        from + conns_le(v).len() == conn_start(v, from, v.len() as int),
        forall|k: int|
            0 <= k < v.len() ==> has_conn(s, conn_start(v, from, k), #[trigger] v[k]),
    decreases v.len(),
{
    if v.len() > 0 {
        let init = v.drop_last();
        lemma_holds_split(s, from, conns_le(init), conn_le(v.last()));
        lemma_conns(s, from, init);
        lemma_conn(s, from + conns_le(init).len(), v.last());
        let n = init.len() as int;
        assert forall|k: int| 0 <= k <= n implies #[trigger] conn_start(v, from, k) == conn_start(
            init,
            from,
            k,
        ) by {
            lemma_conn_init(v, from, k);
        }
        assert forall|k: int| 0 <= k < v.len() implies has_conn(
            s,
            conn_start(v, from, k),
            #[trigger] v[k],
        ) by {
            assert(conn_start(v, from, k) == conn_start(init, from, k));
            if k < n {
                assert(init[k] == v[k]);
            }
        }
        assert(conn_start(v, from, n) == conn_start(init, from, n));
    }
}

proof fn lemma_conn_init(v: Seq<ConnView>, from: int, k: int)
    requires
        v.len() > 0,
        0 <= k < v.len(),
    ensures
        conn_start(v.drop_last(), from, k) == conn_start(v, from, k),
    decreases k,
{
    if k > 0 {
        lemma_conn_init(v, from, k - 1);
    }
}

/// A zone as its format lays it out: four letters, the version, the camera's mode and
/// numbers; the instances behind their number; the rectangle; the connections behind
/// theirs; and nothing more.
pub open spec fn laid_out(s: Seq<u8>, v: ZoneView) -> bool {
    let p = instance_start(v.instances, v.instances.len() as int);
    &&& spells(s, 0, 0x42, 0x53, 0x43, 0x31)
    &&& le16(s, 4) == 2
    &&& le16(s, 6) == mode_of(v.camera)
    &&& has_floats(s, 8, camera_numbers(v.camera))
    &&& le32(s, 24) == v.instances.len()
    &&& forall|k: int|
        0 <= k < v.instances.len() ==> has_instance(
            s,
            instance_start(v.instances, k),
            #[trigger] v.instances[k],
        )
    &&& le32(s, p) == v.bounds[0].0
    &&& le32(s, p + 4) == v.bounds[1].0
    &&& le32(s, p + 8) == v.bounds[2].0
    &&& le32(s, p + 12) == v.bounds[3].0
    &&& le32(s, p + 16) == v.conns.len()
    &&& forall|k: int|
        0 <= k < v.conns.len() ==> has_conn(
            s,
            conn_start(v.conns, p + 20, k),
            #[trigger] v.conns[k],
        )
    &&& s.len() == conn_start(v.conns, p + 20, v.conns.len() as int)
}

/// A baked zone is laid out as its format says.
pub proof fn law_zone_is_laid_out(space: &Space, conns: &[Connection], out: Vec<u8>)
    requires
        call_ensures(encode, (space, conns), out),
        zone_fits(zone_view(*space, conns@)),
    ensures
        laid_out(out@, zone_view(*space, conns@)),
{
    lemma_encoded(space, conns, out);
    lemma_zone(out@, zone_view(*space, conns@));
}

proof fn lemma_encoded(space: &Space, conns: &[Connection], out: Vec<u8>)
    requires
        call_ensures(encode, (space, conns), out),
    ensures
        out@ == zone_le(zone_view(*space, conns@)),
{
}

/// What a baked zone holds: the space's rectangle, smaller corner first, its instances
/// and the connections, each as it is and in order.
pub proof fn law_zone_holds_its_space(space: &Space, conns: &[Connection], k: int)
    ensures
        zone_view(*space, conns@).bounds == seq![
            space.bounds.min@[0],
            space.bounds.min@[1],
            space.bounds.max@[0],
            space.bounds.max@[1],
        ],
        zone_view(*space, conns@).instances.len() == space.instances@.len(),
        zone_view(*space, conns@).conns.len() == conns@.len(),
        0 <= k < space.instances@.len() ==> zone_view(*space, conns@).instances[k]
            == space.instances@[k]@,
        0 <= k < conns@.len() ==> zone_view(*space, conns@).conns[k] == (ConnView {
                neighbour: conns@[k].neighbour@,
                side: conns@[k].side,
                span: seq![
                    conns@[k].lo,
                    conns@[k].hi,
                    conns@[k].delta@[0],
                    conns@[k].delta@[1],
                ],
                gate: conns@[k].gate,
            }),
{
}

proof fn lemma_zone(s: Seq<u8>, v: ZoneView)
    requires
        s == zone_le(v),
        zone_fits(v),
    ensures
        laid_out(s, v),
{
    let head = header_le(ZONE_VERSION, v.camera);
    let count = u32_le(v.instances.len() as u32);
    let body = instances_le(v.instances);
    let tail = zone_tail_le(v);
    lemma_holds_whole(s);
    lemma_holds_split(s, 0, head, count + (body + tail));
    lemma_header_at(s, ZONE_VERSION, v.camera);
    lemma_holds_split(s, 24, count, body + tail);
    lemma_u32_holds(s, 24, v.instances.len() as u32);
    lemma_holds_split(s, 28, body, tail);
    lemma_instances(s, v.instances);
    let p = instance_start(v.instances, v.instances.len() as int);
    lemma_tail(s, p, v);
    lemma_le(s, 24);
    lemma_camera(s, v.camera);
    assert(s.len() == p + tail.len());
}

proof fn lemma_tail(s: Seq<u8>, p: int, v: ZoneView)
    requires
        holds_at(s, p, zone_tail_le(v)),
        zone_fits(v),
    ensures
        le32(s, p) == v.bounds[0].0,
        le32(s, p + 4) == v.bounds[1].0,
        le32(s, p + 8) == v.bounds[2].0,
        le32(s, p + 12) == v.bounds[3].0,
        le32(s, p + 16) == v.conns.len(),
        forall|k: int|
            0 <= k < v.conns.len() ==> has_conn(
                s,
                conn_start(v.conns, p + 20, k),
                #[trigger] v.conns[k],
            ),
        p + zone_tail_le(v).len() == conn_start(v.conns, p + 20, v.conns.len() as int),
{
    let n = u32_le(v.conns.len() as u32);
    lemma_holds_split(s, p, floats_le(v.bounds), n + conns_le(v.conns));
    lemma_floats_len(v.bounds);
    lemma_floats_at(s, p, v.bounds);
    lemma_floats(s, p, v.bounds);
    assert(le32(s, p + 4 * 0) == v.bounds[0].0);
    assert(le32(s, p + 4 * 1) == v.bounds[1].0);
    assert(le32(s, p + 4 * 2) == v.bounds[2].0);
    assert(le32(s, p + 4 * 3) == v.bounds[3].0);
    lemma_holds_split(s, p + 16, n, conns_le(v.conns));
    lemma_u32_holds(s, p + 16, v.conns.len() as u32);
    lemma_le(s, p + 16);
    lemma_conns(s, p + 20, v.conns);
}

proof fn lemma_camera(s: Seq<u8>, c: CameraMode)
    requires
        holds_at(s, 0, header_le(ZONE_VERSION, c)),
    ensures
        spells(s, 0, 0x42, 0x53, 0x43, 0x31),
        le16(s, 4) == 2,
        le16(s, 6) == mode_of(c),
        has_floats(s, 8, camera_numbers(c)),
{
    let params = floats_le(camera_params(c));
    let m = u16_le(camera_mode(c));
    lemma_holds_split(s, 0, u32_le(MAGIC), u16_le(ZONE_VERSION) + (m + params));
    lemma_stands(s, 0, u32_le(MAGIC));
    let magic = s.subrange(0, 4);
    assert(s[0] == magic[0] && s[1] == magic[1] && s[2] == magic[2] && s[3] == magic[3]);
    lemma_holds_split(s, 4, u16_le(ZONE_VERSION), m + params);
    crate::scene::wire::lemma_u16_holds(s, 4, ZONE_VERSION);
    lemma_le(s, 4);
    lemma_le(s, 6);
    lemma_holds_split(s, 6, m, params);
    crate::scene::wire::lemma_u16_holds(s, 6, camera_mode(c));
    lemma_floats_at(s, 8, camera_params(c));
    let all = camera_params(c);
    lemma_floats(s, 8, all);
    let own = camera_numbers(c);
    assert forall|i: int| 0 <= i < own.len() implies le32(s, 8 + 4 * i) == (#[trigger] own[i]).0 by {
        assert(all[i] == own[i]);
    }
}

/// A camera is read by its mode, with as many numbers as it has, in order; a mode that no
/// camera has is refused.
pub proof fn law_camera_is_read_by_its_mode(mode: u16, p: [F32Bits; 4], r: Option<CameraMode>)
    requires
        call_ensures(CameraMode::from_wire, (mode, p), r),
    ensures
        r is Some <==> mode < 4,
        r matches Some(c) ==> mode_of(c) == mode && camera_numbers(c) == p@.take(
            camera_numbers(c).len() as int,
        ),
{
    if let Some(c) = r {
        assert(camera_numbers(c) =~= p@.take(camera_numbers(c).len() as int));
    }
}

/// An instance that is read has a material exactly where its flag is not zero, whatever
/// else it is, and a mesh exactly where the name has characters.
pub proof fn law_flags_are_read(s: Seq<u8>, p: int, v: InstanceView, end: int)
    requires
        instance_at(s, p) == Some((v, end)),
    ensures
        ({
            let b = p + 2 + le16(s, p) + 2 + le16(s, p + 2 + le16(s, p));
            &&& v.material is Some <==> s[b + 36] != 0
            &&& v.mesh is Some <==> mesh_name(v.mesh).len() > 0
            &&& v.flags == le32(s, b + 43)
            &&& v.path.len() == le16(s, b + 47)
            &&& end == b + 49 + 8 * le16(s, b + 47)
        }),
{
    lemma_le(s, p);
    let q = p + 2 + le16(s, p);
    lemma_le(s, q);
    let b = q + 2 + le16(s, q);
    lemma_le(s, b + 43);
    lemma_le(s, b + 47);
}

} // verus!
