//! The baked zone, version 2 of the `.scene` blob. Behind the instances stand the
//! four words of its bounds, then a counted list of connections: a connection is
//! its neighbour's name, the side it crosses, the ends of its segment, the two
//! components of its delta, and a gate number.

use crate::bytes::{u32_at, u32_le};
use crate::float::F32Bits;
use crate::scene::asset::{
    header_at, header_le, instance_fits, instances_at, instances_le, lemma_header_at,
    lemma_header_in_prefix, lemma_instances_at, lemma_instances_in_prefix, short_text, CameraMode,
    InstanceView,
};
use crate::scene::wire::{
    floats_at, floats_le, holds_at, lemma_floats_at, lemma_floats_len, lemma_holds_split,
    lemma_holds_whole, lemma_text_at, lemma_text_in_prefix, lemma_u32_holds, text_at, text_le,
};
use vstd::prelude::*;

verus! {

/// The format version of a baked zone: bounds and derived connections stand where
/// version 1 has authored exits.
pub const ZONE_VERSION: u16 = 2;

/// A connection by its values.
#[verifier::ext_equal]
pub struct ConnView {
    pub neighbour: Seq<char>,
    pub side: u8,
    /// Segment start and end, then the two components of the delta.
    pub span: Seq<F32Bits>,
    pub gate: u32,
}

/// The written form of a connection.
pub open spec fn conn_le(c: ConnView) -> Seq<u8> {
    text_le(c.neighbour) + (seq![c.side] + (floats_le(c.span) + u32_le(c.gate)))
}

/// Connections behind each other.
pub open spec fn conns_le(v: Seq<ConnView>) -> Seq<u8>
    decreases v.len(),
{
    if v.len() == 0 {
        Seq::empty()
    } else {
        conns_le(v.drop_last()) + conn_le(v.last())
    }
}

/// What a zone blob holds.
#[verifier::ext_equal]
pub struct ZoneView {
    pub camera: CameraMode,
    pub instances: Seq<InstanceView>,
    /// Smallest and largest corner of the walkable rectangle.
    pub bounds: Seq<F32Bits>,
    pub conns: Seq<ConnView>,
}

/// The written form of a zone.
pub open spec fn zone_le(v: ZoneView) -> Seq<u8> {
    header_le(ZONE_VERSION, v.camera) + (u32_le(v.instances.len() as u32) + (instances_le(v.instances)
        + zone_tail_le(v)))
}

/// The connection at offset `p` and the offset behind it.
pub open spec fn conn_at(s: Seq<u8>, p: int) -> Option<(ConnView, int)> {
    match text_at(s, p) {
        None => None,
        Some((neighbour, q)) => if q + 21 > s.len() {
            None
        } else {
            Some(
                (
                    ConnView {
                        neighbour,
                        side: s[q],
                        span: floats_at(s, q + 1, 4),
                        gate: u32_at(s, q + 17),
                    },
                    q + 21,
                ),
            )
        },
    }
}

/// The `n` connections at offset `p` and the offset behind them.
pub open spec fn conns_at(s: Seq<u8>, p: int, n: nat) -> Option<(Seq<ConnView>, int)>
    decreases n,
{
    if n == 0 {
        Some((Seq::empty(), p))
    } else {
        match conns_at(s, p, (n - 1) as nat) {
            None => None,
            Some((v, q)) => match conn_at(s, q) {
                None => None,
                Some((x, e)) => Some((v.push(x), e)),
            },
        }
    }
}

/// Where the first connections do not parse, more do not either.
pub proof fn lemma_conns_none(s: Seq<u8>, p: int, k: nat, n: nat)
    requires
        k <= n,
        conns_at(s, p, k) is None,
    ensures
        conns_at(s, p, n) is None,
    decreases n,
{
    if k < n {
        lemma_conns_none(s, p, k, (n - 1) as nat);
    }
}

/// The zone in a blob and the offset behind it.
pub open spec fn zone_at(s: Seq<u8>) -> Option<(ZoneView, int)> {
    match header_at(s, ZONE_VERSION) {
        None => None,
        Some(camera) => if s.len() < 28 {
            None
        } else {
            match instances_at(s, 28, u32_at(s, 24) as nat) {
                None => None,
                Some((instances, p)) => if p + 20 > s.len() {
                    None
                } else {
                    match conns_at(s, p + 20, u32_at(s, p + 16) as nat) {
                        None => None,
                        Some((conns, e)) => Some(
                            (
                                ZoneView { camera, instances, bounds: floats_at(s, p, 4), conns },
                                e,
                            ),
                        ),
                    }
                },
            }
        },
    }
}

/// A connection that the format can hold.
pub open spec fn conn_fits(c: ConnView) -> bool {
    short_text(c.neighbour) && c.span.len() == 4
}

proof fn lemma_conns_at(s: Seq<u8>, p: int, v: Seq<ConnView>)
    requires
        holds_at(s, p, conns_le(v)),
        forall|i: int| 0 <= i < v.len() ==> conn_fits(#[trigger] v[i]),
    ensures
        conns_at(s, p, v.len()) == Some((v, p + conns_le(v).len())),
    decreases v.len(),
{
    if v.len() > 0 {
        let init = v.drop_last();
        let last = v.last();
        lemma_holds_split(s, p, conns_le(init), conn_le(last));
        assert forall|i: int| 0 <= i < init.len() implies conn_fits(#[trigger] init[i]) by {
            assert(init[i] == v[i]);
        }
        lemma_conns_at(s, p, init);
        assert(conn_fits(v[v.len() - 1]));
        lemma_conn_at(s, p + conns_le(init).len(), last);
        assert(init.push(last) =~= v);
    } else {
        assert(v =~= Seq::empty());
    }
}

proof fn lemma_conn_at(s: Seq<u8>, p: int, c: ConnView)
    requires
        holds_at(s, p, conn_le(c)),
        conn_fits(c),
    ensures
        conn_at(s, p) == Some((c, p + conn_le(c).len())),
{
    lemma_floats_len(c.span);
    let b = floats_le(c.span) + u32_le(c.gate);
    let a = seq![c.side] + b;
    lemma_holds_split(s, p, text_le(c.neighbour), a);
    lemma_text_at(s, p, c.neighbour);
    let q = p + text_le(c.neighbour).len();
    lemma_holds_split(s, q, seq![c.side], b);
    lemma_holds_split(s, q + 1, floats_le(c.span), u32_le(c.gate));
    lemma_floats_at(s, q + 1, c.span);
    lemma_u32_holds(s, q + 17, c.gate);
    assert(s[q] == c.side) by {
        reveal(holds_at);
        assert(s.subrange(q, q + 1)[0] == c.side);
    }
}

/// A zone that the format can hold.
pub open spec fn zone_fits(v: ZoneView) -> bool {
    &&& v.instances.len() <= u32::MAX
    &&& v.conns.len() <= u32::MAX
    &&& v.bounds.len() == 4
    &&& forall|i: int| 0 <= i < v.instances.len() ==> instance_fits(#[trigger] v.instances[i])
    &&& forall|i: int| 0 <= i < v.conns.len() ==> conn_fits(#[trigger] v.conns[i])
}

/// The bounds and connections of a zone, as written behind its instances.
pub open spec fn zone_tail_le(v: ZoneView) -> Seq<u8> {
    floats_le(v.bounds) + (u32_le(v.conns.len() as u32) + conns_le(v.conns))
}

proof fn lemma_zone_tail(s: Seq<u8>, p: int, v: ZoneView)
    requires
        holds_at(s, p, zone_tail_le(v)),
        zone_fits(v),
    ensures
        p + 20 <= s.len(),
        floats_at(s, p, 4) == v.bounds,
        u32_at(s, p + 16) == v.conns.len(),
        conns_at(s, p + 20, v.conns.len()) == Some((v.conns, p + zone_tail_le(v).len())),
{
    let m = u32_le(v.conns.len() as u32);
    lemma_floats_len(v.bounds);
    lemma_holds_split(s, p, floats_le(v.bounds), m + conns_le(v.conns));
    lemma_floats_at(s, p, v.bounds);
    lemma_holds_split(s, p + 16, m, conns_le(v.conns));
    lemma_u32_holds(s, p + 16, v.conns.len() as u32);
    lemma_conns_at(s, p + 20, v.conns);
}

proof fn lemma_zone_head(s: Seq<u8>, v: ZoneView)
    requires
        holds_at(s, 0, zone_le(v)),
        zone_fits(v),
    ensures
        s.len() >= 28,
        header_at(s, ZONE_VERSION) == Some(v.camera),
        u32_at(s, 24) == v.instances.len(),
        instances_at(s, 28, v.instances.len()) == Some(
            (v.instances, 28int + instances_le(v.instances).len()),
        ),
        holds_at(s, 28int + instances_le(v.instances).len(), zone_tail_le(v)),
        zone_le(v).len() == 28 + instances_le(v.instances).len() + zone_tail_le(v).len(),
{
    let n = u32_le(v.instances.len() as u32);
    let c = instances_le(v.instances) + zone_tail_le(v);
    lemma_holds_split(s, 0, header_le(ZONE_VERSION, v.camera), n + c);
    lemma_header_at(s, ZONE_VERSION, v.camera);
    lemma_holds_split(s, 24, n, c);
    lemma_u32_holds(s, 24, v.instances.len() as u32);
    lemma_holds_split(s, 28, instances_le(v.instances), zone_tail_le(v));
    lemma_instances_at(s, 28, v.instances);
}

/// A zone blob holds all that was written: camera, instances, bounds and
/// connections can be read back from it, whatever follows it.
pub proof fn law_zone_round_trip(v: ZoneView, tail: Seq<u8>)
    requires
        zone_fits(v),
    ensures
        zone_at(zone_le(v) + tail) == Some((v, zone_le(v).len() as int)),
{
    let s = zone_le(v) + tail;
    lemma_holds_whole(s);
    lemma_holds_split(s, 0, zone_le(v), tail);
    lemma_zone_head(s, v);
    lemma_zone_tail(s, 28int + instances_le(v.instances).len(), v);
}

/// Zones that differ in what is written have different blobs.
pub proof fn law_encode_is_injective(a: ZoneView, b: ZoneView)
    requires
        zone_fits(a),
        zone_fits(b),
        zone_le(a) == zone_le(b),
    ensures
        a == b,
{
    law_zone_round_trip(a, Seq::empty());
    law_zone_round_trip(b, Seq::empty());
}

proof fn lemma_conns_in_prefix(s: Seq<u8>, k: int, p: int, n: nat)
    requires
        0 <= p <= k <= s.len(),
        conns_at(s.subrange(0, k), p, n) is Some,
    ensures
        conns_at(s, p, n) == conns_at(s.subrange(0, k), p, n),
        p <= (conns_at(s, p, n)->0).1 <= k,
    decreases n,
{
    if n > 0 {
        lemma_conns_in_prefix(s, k, p, (n - 1) as nat);
        let q = (conns_at(s, p, (n - 1) as nat)->0).1;
        lemma_text_in_prefix(s, k, q);
        let q1 = (text_at(s, q)->0).1;
        let t = s.subrange(0, k);
        assert(t[q1] == s[q1]);
        assert(floats_at(t, q1 + 1, 4) =~= floats_at(s, q1 + 1, 4));
        assert(u32_at(t, q1 + 17) == u32_at(s, q1 + 17));
    }
}

/// A blob gives the same zone, and the same end, as any part of it that gives one.
pub proof fn lemma_zone_in_prefix(s: Seq<u8>, k: int)
    requires
        0 <= k <= s.len(),
        zone_at(s.subrange(0, k)) is Some,
    ensures
        zone_at(s) == zone_at(s.subrange(0, k)),
        (zone_at(s)->0).1 <= k,
{
    let t = s.subrange(0, k);
    lemma_header_in_prefix(s, k, ZONE_VERSION);
    assert(u32_at(t, 24) == u32_at(s, 24));
    lemma_instances_in_prefix(s, k, 28, u32_at(t, 24) as nat);
    let p = (instances_at(s, 28, u32_at(s, 24) as nat)->0).1;
    assert(floats_at(t, p, 4) =~= floats_at(s, p, 4));
    assert(u32_at(t, p + 16) == u32_at(s, p + 16));
    lemma_conns_in_prefix(s, k, p + 20, u32_at(t, p + 16) as nat);
}

} // verus!
