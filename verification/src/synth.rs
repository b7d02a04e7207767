//! Synthetic worlds for tests of scale.
//!
//! The entities have the shape of imported ones: stable ids, extents, a handle to a
//! payload that is never opened, and a telemetry binding. They lie on a grid.

use crate::dict::TextMap;
use crate::lsg::{
    linked, translated, Aabb, Entity, EntityId, EntityView, GeomRef, GeomRefView, Lsg, LsgView,
    TelemetryBinding, TelemetryBindingView, Transform,
};
use crate::model::{group_models, views};
use crate::overridden::OverriddenView;
use crate::scalar::{whole_double, Double};
use crate::text::{cat, cat3, decimal, decimal_of};
use vstd::prelude::*;
use vstd::string::*;

verus! {

// ---------------------------------------------------------------------------
// Sizes.

/// A quotient rounded to the nearest whole number, halves to the even one.
pub open spec fn rounded(n: nat, d: nat) -> nat {
    let q = n / d;
    let r = n % d;
    if 2 * r < d {
        q
    } else if 2 * r > d {
        q + 1
    } else {
        q + q % 2
    }
}

/// The step between doubles near a whole number: one up to two to the
/// fifty-third, and twice as much with each doubling.
pub open spec fn double_step(n: nat) -> nat
    decreases n,
{
    if n < 0x20_0000_0000_0000 {
        1
    } else {
        2 * double_step(n / 2)
    }
}

/// A whole number as far as a double can tell it.
pub open spec fn as_double(n: nat) -> nat {
    rounded(n, double_step(n)) * double_step(n)
}

/// The unit in which a size is given: how often it can be divided by 1024, at
/// most four times.
pub open spec fn unit_of(n: nat, u: nat) -> nat
    decreases 4 - u,
{
    if u >= 4 || n < 1024 * unit_size(u) {
        u
    } else {
        unit_of(n, u + 1)
    }
}

pub open spec fn unit_size(u: nat) -> nat {
    if u == 0 {
        1
    } else if u == 1 {
        1024
    } else if u == 2 {
        1048576
    } else if u == 3 {
        1073741824
    } else {
        1099511627776
    }
}

pub open spec fn unit_name(u: nat) -> Seq<char> {
    if u == 0 {
        "B"@
    } else if u == 1 {
        "KiB"@
    } else if u == 2 {
        "MiB"@
    } else if u == 3 {
        "GiB"@
    } else {
        "TiB"@
    }
}

/// A size with one decimal: the number, as far as a double can tell it, in tenths
/// of its unit.
pub open spec fn size_text(bytes: nat) -> Seq<char> {
    let n = as_double(bytes);
    let u = unit_of(n, 0);
    let tenths = rounded(10 * n, unit_size(u));
    decimal_of(tenths / 10) + "."@ + decimal_of(tenths % 10) + (" "@ + unit_name(u))
}

proof fn lemma_double_step(n: nat)
    ensures
        1 <= double_step(n),
        n < 0x20_0000_0000_0000 ==> double_step(n) == 1,
        n >= 0x20_0000_0000_0000 ==> double_step(n) * 0x10_0000_0000_0000 <= n,
    decreases n,
{
    if n >= 0x20_0000_0000_0000 {
        lemma_double_step(n / 2);
    }
}

fn step_of(n: u64) -> (d: u64)
    ensures
        d == double_step(n as nat),
        1 <= d <= 4096,
{
    proof {
        lemma_double_step(n as nat);
        assert(double_step(n as nat) <= 4096);
    }
    let mut m: u64 = n;
    let mut d: u64 = 1;
    while m >= 0x20_0000_0000_0000
        invariant
            1 <= d,
            double_step(n as nat) == d * double_step(m as nat),
            double_step(n as nat) <= 4096,
            1 <= double_step(m as nat),
        decreases m,
    {
        proof {
            lemma_double_step((m / 2) as nat);
            let a = double_step((m / 2) as nat);
            assert(double_step(m as nat) == 2 * a);
            assert(d * (2 * a) == (2 * d) * a) by (nonlinear_arith);
            assert(2 * d <= 4096) by (nonlinear_arith)
                requires
                    (2 * d) * a <= 4096,
                    a >= 1,
            ;
        }
        m = m / 2;
        d = 2 * d;
    }
    proof {
        lemma_double_step(m as nat);
        assert(d * double_step(m as nat) == d);
    }
    d
}

fn round_quotient(n: u128, d: u128) -> (q: u128)
    requires
        0 < d <= 1099511627776,
        n < 0x1_0000_0000_0000_0000_0000,
    ensures
        q == rounded(n as nat, d as nat),
        q <= n / d + 1,
{
    let q: u128 = n / d;
    let r: u128 = n % d;
    if 2 * r < d {
        q
    } else if 2 * r > d {
        q + 1
    } else {
        q + q % 2
    }
}

/// Writes a size in bytes for people, in a unit that fits.
pub fn format_bytes(bytes: u64) -> (s: String)
    ensures
        s@ == size_text(bytes as nat),
{
    let step: u64 = step_of(bytes);
    let k: u128 = round_quotient(bytes as u128, step as u128);
    assert(k * step <= 0x1_0000_0000_0000_0000 + 8192) by (nonlinear_arith)
        requires
            k <= bytes as int / step as int + 1,
            1 <= step <= 4096,
            bytes < 0x1_0000_0000_0000_0000,
    ;
    let n: u128 = k * step as u128;
    let mut u: u64 = 0;
    let mut size: u128 = 1;
    while u < 4 && n >= 1024 * size
        invariant
            u <= 4,
            size == unit_size(u as nat),
            n <= 0x1_0000_0000_0000_0000 + 8192,
            unit_of(n as nat, 0) == unit_of(n as nat, u as nat),
        decreases 4 - u,
    {
        size = 1024 * size;
        u = u + 1;
    }
    let tenths: u128 = round_quotient(10 * n, size);
    assert(tenths <= 10 * n + 1) by (nonlinear_arith)
        requires
            tenths <= (10 * n) as int / size as int + 1,
            size >= 1,
            n >= 0,
    ;
    let name = if u == 0 {
        "B"
    } else if u == 1 {
        "KiB"
    } else if u == 2 {
        "MiB"
    } else if u == 3 {
        "GiB"
    } else {
        "TiB"
    };
    let whole = decimal_wide(tenths / 10);
    let rest = cat3(decimal((tenths % 10) as u64).as_str(), " ", name);
    let out = cat3(whole.as_str(), ".", rest.as_str());
    proof {
        let d = decimal_of((tenths % 10) as nat);
        assert(out@ =~= decimal_of((tenths / 10) as nat) + "."@ + d + (" "@ + unit_name(
            u as nat,
        )));
    }
    out
}

/// Writes a number in decimal.
fn decimal_wide(n: u128) -> (s: String)
    ensures
        s@ == decimal_of(n as nat),
    decreases n,
{
    if n < 10 {
        decimal(n as u64)
    } else {
        let mut s = decimal_wide(n / 10);
        let last = decimal((n % 10) as u64);
        s.append(last.as_str());
        proof {
            assert(s@ =~= decimal_of((n / 10) as nat).push(
                crate::text::digit_char((n % 10) as nat),
            ));
        }
        s
    }
}

// ---------------------------------------------------------------------------
// Worlds.

pub open spec fn class_payload(c: int) -> Seq<char> {
    if c == 0 {
        "./components/pump.usda"@
    } else if c == 1 {
        "./components/tank.usda"@
    } else {
        "./components/distribution_switch.usda"@
    }
}

pub open spec fn class_metric(c: int) -> Seq<char> {
    if c == 0 {
        "flow"@
    } else if c == 1 {
        "level"@
    } else {
        "loadCurrent"@
    }
}

/// The box of a synthetic entity at a place, relative to another.
pub open spec fn synth_box(a: Aabb, x: int, y: int, z: int) -> bool {
    &&& a.min@ == seq![whole_double(x - 1), whole_double(y - 1), whole_double(z)]
    &&& a.max@ == seq![whole_double(x + 1), whole_double(y + 1), whole_double(z + 3)]
}

/// The place of entity `i` on a grid with `side` places along an edge, five units
/// apart.
pub open spec fn synth_place(i: int, side: int) -> (int, int, int) {
    (5 * (i % side), 5 * ((i / side) % side), 5 * (i / (side * side)))
}

/// Entity `i` of a synthetic world.
pub open spec fn is_synth_entity(e: EntityView, i: int, side: int) -> bool {
    let path = "/Synth/e"@ + decimal_of(i as nat);
    let (x, y, z) = synth_place(i, side);
    let metric = class_metric(i % 3);
    &&& e.id == EntityId::of_path(path)
    &&& e.prim_path == path
    &&& e.parent is None
    &&& e.children.len() == 0
    &&& e.kind == Some("component"@)
    &&& e.tags.len() == 0
    &&& e.vf == Map::<Seq<char>, crate::lsg::VfValueView>::empty()
    &&& e.transform_default@ == translated(
        seq![whole_double(x), whole_double(y), whole_double(z)],
    )
    &&& synth_box(e.extents, x, y, z)
    &&& synth_box(e.local_extents, 0, 0, 0)
    &&& e.geom_ref == Some(
        GeomRefView {
            payload_uri: class_payload(i % 3),
            prim_path: "/Component"@,
            content_hash: Seq::empty(),
            lod_ladder: Seq::empty(),
        },
    )
    &&& e.bindings == seq![
        TelemetryBindingView {
            attribute: metric,
            source_id: "victoriametrics"@,
            query: metric + "{asset=\"E"@ + (decimal_of(i as nat) + "\"}"@),
            unit: Seq::empty(),
            ttl_ms: Double { bits: 0x40b3_8800_0000_0000 },
            priority: "background"@,
            quality_policy: "stale_ok"@,
        },
    ]
}

fn synth_aabb(x: i64, y: i64, z: i64) -> (a: Aabb)
    requires
        0 <= x < 0x1f_ffff_ffff_0000,
        0 <= y < 0x1f_ffff_ffff_0000,
        0 <= z < 0x1f_ffff_ffff_0000,
    ensures
        synth_box(a, x as int, y as int, z as int),
{
    let a = Aabb {
        min: [Double::from_whole(x - 1), Double::from_whole(y - 1), Double::from_whole(z)],
        max: [Double::from_whole(x + 1), Double::from_whole(y + 1), Double::from_whole(z + 3)],
    };
    proof {
        assert(a.min@ =~= seq![whole_double(x - 1), whole_double(y - 1), whole_double(z as int)]);
        assert(a.max@ =~= seq![whole_double(x + 1), whole_double(y + 1), whole_double(z + 3)]);
    }
    a
}

/// Makes entity `i` of a synthetic world.
pub fn synth_entity(i: u64, side: u64) -> (e: Entity)
    requires
        1 <= side <= 0xffff_ffff,
        i < 0x5_0000_0000_0000,
    ensures
        is_synth_entity(e@, i as int, side as int),
{
    broadcast use group_models;

    let number = decimal(i);
    let prim_path = cat("/Synth/e", number.as_str());
    let c: u64 = i % 3;
    let (payload, metric) = if c == 0 {
        ("./components/pump.usda", "flow")
    } else if c == 1 {
        ("./components/tank.usda", "level")
    } else {
        ("./components/distribution_switch.usda", "loadCurrent")
    };
    proof {
        assert(side * side >= side && side * side <= 0xffff_ffff * 0xffff_ffff) by (nonlinear_arith)
            requires
                1 <= side <= 0xffff_ffff,
        ;
        assert(i as int / (side * side) as int <= i) by (nonlinear_arith)
            requires
                side * side >= 1,
                i >= 0,
        ;
        assert(i as int / side as int <= i) by (nonlinear_arith)
            requires
                side >= 1,
                i >= 0,
        ;
    }
    let gx: u64 = i % side;
    let gy: u64 = (i / side) % side;
    let gz: u64 = i / (side * side);
    let x: i64 = (5 * gx) as i64;
    let y: i64 = (5 * gy) as i64;
    let z: i64 = (5 * gz) as i64;
    let id = EntityId::from_prim_path(prim_path.as_str());
    let tail = cat(number.as_str(), "\"}");
    let place = [Double::from_whole(x), Double::from_whole(y), Double::from_whole(z)];
    proof {
        assert(place@ =~= seq![
            whole_double(x as int),
            whole_double(y as int),
            whole_double(z as int),
        ]);
    }
    let mut bindings: Vec<TelemetryBinding> = Vec::new();
    bindings.push(
        TelemetryBinding {
            attribute: metric.to_owned(),
            source_id: "victoriametrics".to_owned(),
            query: cat3(metric, "{asset=\"E", tail.as_str()),
            unit: String::new(),
            ttl_ms: Double::from_bits(0x40b3_8800_0000_0000),
            priority: "background".to_owned(),
            quality_policy: "stale_ok".to_owned(),
        },
    );
    let geom = GeomRef {
        payload_uri: payload.to_owned(),
        prim_path: "/Component".to_owned(),
        content_hash: String::new(),
        lod_ladder: Vec::new(),
    };
    proof {
        assert(geom@.lod_ladder =~= Seq::empty());
        assert(views(bindings@) =~= seq![bindings@[0]@]);
    }
    Entity {
        id,
        prim_path,
        parent: None,
        children: Vec::new(),
        kind: Some("component".to_owned()),
        tags: Vec::new(),
        vf: TextMap::new(),
        transform_default: Transform::from_translation(place),
        extents: synth_aabb(x, y, z),
        local_extents: synth_aabb(0, 0, 0),
        geom_ref: Some(geom),
        bindings,
    }
}

/// The index after the entities of a sequence have been entered.
pub open spec fn all_inserted(v: LsgView, es: Seq<EntityView>) -> LsgView
    decreases es.len(),
{
    if es.len() == 0 {
        v
    } else {
        all_inserted(v, es.drop_last()).inserted(es.last())
    }
}

pub open spec fn empty_index() -> LsgView {
    LsgView {
        entities: Map::empty(),
        by_path: Map::empty(),
        by_asset_tag: Map::empty(),
        binding_index: Map::empty(),
        anchors: Map::empty(),
        edges: Map::empty(),
        overridden: OverriddenView::nothing(),
        revision: 0,
    }
}

/// An index is that of a synthetic world: the entities, entered in order, with
/// their children listed.
pub open spec fn is_synth_world(v: LsgView, count: int, side: int) -> bool {
    exists|es: Seq<EntityView>|
        {
            &&& es.len() == count
            &&& forall|i: int| 0 <= i < count ==> is_synth_entity(#[trigger] es[i], i, side)
            &&& v == (LsgView {
                entities: linked(all_inserted(empty_index(), es).entities),
                revision: 1,
                ..#[trigger] all_inserted(empty_index(), es)
            })
        }
}

/// Makes a synthetic world of `count` entities on a grid with `side` places along
/// an edge.
pub fn generate(count: u64, side: u64) -> (lsg: Lsg)
    requires
        1 <= side <= 0xffff_ffff,
        count < 0x5_0000_0000_0000,
    ensures
        lsg.wf(),
        is_synth_world(lsg@, count as int, side as int),
{
    let mut lsg = Lsg::new();
    let mut i: u64 = 0;
    let ghost mut es: Seq<EntityView> = Seq::empty();
    while i < count
        invariant
            i <= count,
            1 <= side <= 0xffff_ffff,
            count < 0x5_0000_0000_0000,
            lsg.wf(),
            lsg@.revision == 0,
            es.len() == i,
            forall|j: int| 0 <= j < i ==> is_synth_entity(#[trigger] es[j], j, side as int),
            lsg@ == all_inserted(empty_index(), es),
        decreases count - i,
    {
        let e = synth_entity(i, side);
        proof {
            let more = es.push(e@);
            assert(more.drop_last() =~= es);
            assert(all_inserted(empty_index(), more) == all_inserted(empty_index(), es).inserted(
                e@,
            ));
            es = more;
        }
        lsg.insert(e);
        i = i + 1;
    }
    lsg.link_hierarchy();
    proof {
        assert(lsg@ == (LsgView {
            entities: linked(all_inserted(empty_index(), es).entities),
            revision: 1,
            ..all_inserted(empty_index(), es)
        }));
    }
    lsg
}

// ---------------------------------------------------------------------------
// What holds of sizes and worlds.

/// A rounded quotient is a nearest one, and the even one of two that are as near.
pub proof fn law_quotients_are_rounded_to_the_nearest(n: nat, d: nat)
    requires
        d > 0,
    ensures
        ({
            let q = rounded(n, d);
            &&& 2 * (q * d) <= 2 * n + d
            &&& 2 * n <= 2 * (q * d) + d
            &&& 2 * (q * d) == 2 * n + d || 2 * n == 2 * (q * d) + d ==> q % 2 == 0
        }),
{
    let q = n / d;
    let r = n % d;
    vstd::arithmetic::div_mod::lemma_fundamental_div_mod(n as int, d as int);
    vstd::arithmetic::div_mod::lemma_mod_bound(n as int, d as int);
    assert(n == d * q + r && r < d);
    assert(q * d == d * q) by (nonlinear_arith);
    assert((q + 1) * d == d * q + d) by (nonlinear_arith);
    assert(rounded(n, d) == q || rounded(n, d) == q + 1);
}

/// Below two to the fifty-third a double tells every whole number.
pub proof fn law_doubles_tell_small_numbers(n: nat)
    requires
        n < 0x20_0000_0000_0000,
    ensures
        as_double(n) == n,
{
    assert(double_step(n) == 1);
    assert(n / 1 == n && n % 1 == 0);
}

/// A size is given in the largest unit of which it holds at least one, and bytes below
/// that: one kibibyte is 1024 bytes, and each further unit 1024 times as much.
pub proof fn law_sizes_are_given_in_their_unit(n: nat)
    ensures
        n < 1024 ==> unit_of(n, 0) == 0,
        1024 <= n < 1024 * 1024 ==> unit_of(n, 0) == 1,
        1024 * 1024 <= n < 1024 * 1024 * 1024 ==> unit_of(n, 0) == 2,
        1024 * 1024 * 1024 <= n < 1024 * 1024 * 1024 * 1024 ==> unit_of(n, 0) == 3,
        1024 * 1024 * 1024 * 1024 <= n ==> unit_of(n, 0) == 4,
        unit_size(0) == 1,
        unit_size(1) == 1024,
        unit_size(2) == 1024 * 1024,
        unit_size(3) == 1024 * 1024 * 1024,
        unit_size(4) == 1024 * 1024 * 1024 * 1024,
        unit_name(0) == "B"@,
        unit_name(1) == "KiB"@,
        unit_name(2) == "MiB"@,
        unit_name(3) == "GiB"@,
        unit_name(4) == "TiB"@,
{
    reveal_with_fuel(unit_of, 6);
}

/// A size is written as a number with one decimal, which is nearest to it in its unit,
/// a blank and the unit.
pub proof fn law_sizes_have_one_decimal(n: nat)
    requires
        n < 0x20_0000_0000_0000,
    ensures
        exists|tenths: nat|
            {
                let u = unit_of(n, 0);
                &&& 2 * (tenths * unit_size(u)) <= 2 * (10 * n) + unit_size(u)
                &&& 2 * (10 * n) <= 2 * (tenths * unit_size(u)) + unit_size(u)
                &&& size_text(n) == #[trigger] decimal_of(tenths / 10) + "."@ + decimal_of(
                    tenths % 10,
                ) + " "@ + unit_name(u)
            },
{
    law_doubles_tell_small_numbers(n);
    let u = unit_of(n, 0);
    let tenths = rounded(10 * n, unit_size(u));
    law_quotients_are_rounded_to_the_nearest(10 * n, unit_size(u));
    assert(size_text(n) =~= decimal_of(tenths / 10) + "."@ + decimal_of(tenths % 10) + " "@
        + unit_name(u));
}

/// The entities of a synthetic world lie on a grid, five units apart, with `side`
/// places along its first two edges; no two share a place.
pub proof fn law_places_are_apart(i: int, j: int, side: int)
    requires
        0 <= i,
        0 <= j,
        1 <= side,
    ensures
        ({
            let (x, y, z) = synth_place(i, side);
            &&& 0 <= x < 5 * side && 0 <= y < 5 * side && 0 <= z
            &&& x % 5 == 0 && y % 5 == 0 && z % 5 == 0
            &&& i == x / 5 + side * (y / 5) + side * side * (z / 5)
        }),
        synth_place(i, side) == synth_place(j, side) ==> i == j,
{
    lemma_place_parts(i, side);
    lemma_place_parts(j, side);
}

proof fn lemma_place_parts(i: int, side: int)
    requires
        0 <= i,
        1 <= side,
    ensures
        ({
            let (x, y, z) = synth_place(i, side);
            &&& 0 <= x < 5 * side && 0 <= y < 5 * side && 0 <= z
            &&& x % 5 == 0 && y % 5 == 0 && z % 5 == 0
            &&& i == x / 5 + side * (y / 5) + side * side * (z / 5)
        }),
{
    let a = i % side;
    let q = i / side;
    let b = q % side;
    let c = i / (side * side);
    vstd::arithmetic::div_mod::lemma_fundamental_div_mod(i, side);
    vstd::arithmetic::div_mod::lemma_mod_bound(i, side);
    vstd::arithmetic::div_mod::lemma_div_pos_is_pos(i, side);
    vstd::arithmetic::div_mod::lemma_fundamental_div_mod(q, side);
    vstd::arithmetic::div_mod::lemma_mod_bound(q, side);
    vstd::arithmetic::div_mod::lemma_div_pos_is_pos(q, side);
    vstd::arithmetic::div_mod::lemma_div_denominator(i, side, side);
    assert(c == q / side);
    assert((5 * a) / 5 == a && (5 * b) / 5 == b && (5 * c) / 5 == c);
    assert(side * (b + side * c) == side * b + side * side * c) by (nonlinear_arith);
    assert(q == side * c + b);
    assert(i == side * q + a);
}

/// The binding of a synthetic entity asks for its metric of its own asset, in the shape
/// that can be batched. It is of the backend that is, lives for five seconds and is not
/// urgent.
pub proof fn law_synthetic_bindings_can_be_batched(e: EntityView, i: int, side: int)
    requires
        0 <= i,
        is_synth_entity(e, i, side),
    ensures
        e.bindings.len() == 1,
        e.bindings[0].source_id == "victoriametrics"@,
        e.bindings[0].ttl_ms.whole() == 5000,
        crate::resolver::Priority::of(e.bindings[0].priority)
            == crate::resolver::Priority::Background,
        crate::promql::parse_of(e.bindings[0].query) == Some(
            crate::promql::ParsedQueryView {
                metric: e.bindings[0].attribute,
                asset: "E"@ + decimal_of(i as nat),
                others: Seq::empty(),
            },
        ),
{
    reveal_strlit("background");
    crate::asking::law_high_is_urgent("background"@);
    vstd::arithmetic::power2::lemma2_to64();
    vstd::arithmetic::power2::lemma2_to64_rest();
    let d = e.bindings[0].ttl_ms;
    assert(d.exponent() == 1035);
    assert((1075 - d.exponent()) as nat == 40);
    assert(0x13_8800_0000_0000int / 0x100_0000_0000int == 5000);
    assert(d.whole_magnitude() == 5000);
    let metric = class_metric(i % 3);
    let digits = decimal_of(i as nat);
    let tag = "E"@ + digits;
    reveal_strlit("flow");
    reveal_strlit("level");
    reveal_strlit("loadCurrent");
    reveal_strlit("E");
    reveal_strlit("{asset=\"E");
    reveal_strlit("\"}");
    reveal_strlit("asset=\"");
    reveal_strlit("\"");
    reveal_strlit("{");
    reveal_strlit("}");
    crate::text::law_decimals_stand_for_their_number(i as nat);
    assert forall|k: int| 0 <= k < tag.len() implies #[trigger] tag[k] != '"' && tag[k]
        != '\\' by {
        if k > 0 {
            assert(tag[k] == digits[k - 1]);
        }
    }
    let none = Seq::<Seq<char>>::empty();
    let label = crate::batching::asset_label(tag);
    assert(none.push(label).len() == 1);
    assert(crate::promql::joined(none.push(label), ","@) == label);
    assert(crate::batching::bare(metric));
    crate::batching::law_queries_come_apart(metric, none, tag);
    assert(e.bindings[0].query =~= metric + "{"@ + label + "}"@);
}

/// The entities of a synthetic world take turns: pumps with a flow, tanks with a level,
/// switches with a load current.
pub proof fn law_synthetic_classes_take_turns(e: EntityView, i: int, side: int)
    requires
        0 <= i,
        is_synth_entity(e, i, side),
    ensures
        i % 3 == 0 ==> e.bindings[0].attribute == "flow"@ && e.geom_ref->0.payload_uri
            == "./components/pump.usda"@,
        i % 3 == 1 ==> e.bindings[0].attribute == "level"@ && e.geom_ref->0.payload_uri
            == "./components/tank.usda"@,
        i % 3 == 2 ==> e.bindings[0].attribute == "loadCurrent"@ && e.geom_ref->0.payload_uri
            == "./components/distribution_switch.usda"@,
        e.geom_ref is Some,
        e.kind == Some("component"@),
        e.prim_path == "/Synth/e"@ + decimal_of(i as nat),
{
}

/// A synthetic entity stands at its place on the grid: its transform moves it there, and
/// its box reaches one unit to each side and three up, from there and from its own
/// origin.
pub proof fn law_synthetic_entities_stand_on_the_grid(e: EntityView, i: int, side: int)
    requires
        0 <= i,
        1 <= side,
        is_synth_entity(e, i, side),
    ensures
        ({
            let x = 5 * (i % side);
            let y = 5 * ((i / side) % side);
            let z = 5 * (i / (side * side));
            let m = e.transform_default@;
            &&& m[3] == whole_double(x) && m[7] == whole_double(y) && m[11] == whole_double(z)
            &&& e.extents.min@ == seq![whole_double(x - 1), whole_double(y - 1), whole_double(z)]
            &&& e.extents.max@ == seq![
                whole_double(x + 1),
                whole_double(y + 1),
                whole_double(z + 3),
            ]
            &&& e.local_extents.min@ == seq![whole_double(-1), whole_double(-1), whole_double(0)]
            &&& e.local_extents.max@ == seq![whole_double(1), whole_double(1), whole_double(3)]
        }),
{
}

} // verus!
