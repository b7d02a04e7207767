//! The bridge protocol, the sessions that speak it, and the geometry store.

use serde_json::Value;

use vectorflow_sgs::bridge::{
    negotiate, BridgeMsg, BridgeRequest, BridgeServer, RayHit, RegionWire, VisualSample,
    PROTOCOL_VERSION,
};
use vectorflow_sgs::dict::TextMap;
use vectorflow_sgs::fake_bridge::FakeBridge;
use vectorflow_sgs::geomstore::{
    assemble, decode_glb, encode_glb, find_parts, frame_glb, pad_to_4, read_layout, read_u32,
    split_glb, try_decode_glb, GeomStore, GlbError, Layout, LoadedMesh, Mesh, MeshLoader, Part,
    Parts, Slot, StubMeshLoader, Vec3,
};
use vectorflow_sgs::hydrate::{LoadError, PayloadCache, StubPayloadLoader};
use vectorflow_sgs::import::{build, record_text, GeomRefRecord, PrimRecord, TransformRecord};
use vectorflow_sgs::interest::{
    Hit, InterestManager, Region, Subscription, SubscriptionId, Transitions,
};
use vectorflow_sgs::lsg::{
    Aabb, EntityId, GeomRef, Lsg, TelemetryBinding, Transform, VfItem, VfValue,
};
use vectorflow_sgs::mirror::Mirror;
use vectorflow_sgs::overlay::TwinOverlay;
use vectorflow_sgs::resolver::StubResolver;
use vectorflow_sgs::rsg::{Rsg, RsgDiff};
use vectorflow_sgs::scalar::Double;
use vectorflow_sgs::serve::{greet, Greeting, Session, Step, TelemetryConfig};
use vectorflow_sgs::spatial::{aabb_overlaps, Cell, SpatialIndex};
use vectorflow_sgs::table::IdMap;

fn d(x: f64) -> Double {
    Double::from_bits(x.to_bits())
}

fn f(x: Double) -> f64 {
    f64::from_bits(x.bits)
}

fn d3(p: [f64; 3]) -> [Double; 3] {
    [d(p[0]), d(p[1]), d(p[2])]
}

fn f3(p: [Double; 3]) -> [f64; 3] {
    [f(p[0]), f(p[1]), f(p[2])]
}

fn text_of(v: &Value, key: &str) -> String {
    v.get(key).and_then(Value::as_str).unwrap_or("").to_string()
}

fn opt_text_of(v: &Value, key: &str) -> Option<String> {
    v.get(key).and_then(Value::as_str).map(str::to_string)
}

fn numbers<const N: usize>(v: &Value) -> [Double; N] {
    let mut out = [d(0.0); N];
    for (slot, x) in out.iter_mut().zip(v.as_array().unwrap()) {
        *slot = d(x.as_f64().unwrap());
    }
    out
}

fn vf_value(v: &Value) -> VfValue {
    match v {
        Value::String(s) => VfValue::Text(s.clone()),
        Value::Array(items) => VfValue::List(
            items
                .iter()
                .map(|i| match i {
                    Value::String(s) => VfItem::Text(s.clone()),
                    other => VfItem::Other(other.to_string()),
                })
                .collect(),
        ),
        other => VfValue::Other(other.to_string()),
    }
}

fn record(v: &Value) -> PrimRecord {
    let mut vf = TextMap::new();
    if let Some(fields) = v.get("vf").and_then(Value::as_object) {
        for (k, x) in fields {
            vf.insert(k.clone(), vf_value(x));
        }
    }
    let list = |key: &str| v.get(key).and_then(Value::as_array).cloned().unwrap_or_default();
    PrimRecord {
        prim_path: v.get("primPath").unwrap().as_str().unwrap().to_string(),
        kind: opt_text_of(v, "kind"),
        parent: opt_text_of(v, "parent"),
        transform: v.get("transform").map(|t| TransformRecord {
            translate: t.get("translate").map(numbers),
            matrix: t.get("matrix").map(numbers),
        }),
        extents_hint: v
            .get("extentsHint")
            .map(|e| Aabb { min: numbers(&e[0]), max: numbers(&e[1]) }),
        vf,
        tags: list("tags").iter().map(|t| t.as_str().unwrap().to_string()).collect(),
        geom_ref: v.get("geomRef").map(|g| GeomRefRecord {
            payload_uri: text_of(g, "payloadUri"),
            prim_path: text_of(g, "primPath"),
            content_hash: text_of(g, "contentHash"),
        }),
        bindings: list("bindings")
            .iter()
            .map(|b| TelemetryBinding {
                attribute: text_of(b, "attribute"),
                source_id: text_of(b, "sourceId"),
                query: text_of(b, "query"),
                unit: text_of(b, "unit"),
                ttl_ms: d(b.get("ttlMs").and_then(Value::as_f64).unwrap_or(0.0)),
                priority: text_of(b, "priority"),
                quality_policy: text_of(b, "qualityPolicy"),
            })
            .collect(),
    }
}

fn local_extents(rec: &PrimRecord) -> Aabb {
    let extents = rec.extents_hint.unwrap_or(Aabb::zero());
    let o = f3(rec.transform_default().translation());
    let (min, max) = (f3(extents.min), f3(extents.max));
    Aabb {
        min: d3([min[0] - o[0], min[1] - o[1], min[2] - o[2]]),
        max: d3([max[0] - o[0], max[1] - o[1], max[2] - o[2]]),
    }
}

fn build_from_ndjson(text: &str) -> Lsg {
    let mut entities = Vec::new();
    for line in text.lines() {
        if let Some(json) = record_text(line) {
            let rec = record(&serde_json::from_str(&json).unwrap());
            let local = local_extents(&rec);
            entities.push(rec.into_entity(local));
        }
    }
    build(entities)
}

const CELL_SIZE: f64 = 8.0;

fn centroid(a: &Aabb) -> [f64; 3] {
    let (min, max) = (f3(a.min), f3(a.max));
    [(min[0] + max[0]) * 0.5, (min[1] + max[1]) * 0.5, (min[2] + max[2]) * 0.5]
}

fn cell_of(p: [f64; 3]) -> Cell {
    Cell {
        x: (p[0] / CELL_SIZE).floor() as i64,
        y: (p[1] / CELL_SIZE).floor() as i64,
        z: (p[2] / CELL_SIZE).floor() as i64,
    }
}

fn index(lsg: &Lsg) -> SpatialIndex {
    let mut idx = SpatialIndex::new();
    for e in lsg.entities() {
        idx.insert(cell_of(centroid(&e.extents)), e.id);
    }
    idx
}

fn candidates_for_sphere(idx: &SpatialIndex, c: [f64; 3], radius: f64) -> Vec<EntityId> {
    let r = radius.max(0.0);
    idx.candidates_in_cells(
        cell_of([c[0] - r, c[1] - r, c[2] - r]),
        cell_of([c[0] + r, c[1] + r, c[2] + r]),
    )
}

fn point_in_sphere(p: [f64; 3], center: [f64; 3], radius: f64) -> bool {
    let v = [p[0] - center[0], p[1] - center[1], p[2] - center[2]];
    v[0] * v[0] + v[1] * v[1] + v[2] * v[2] <= radius * radius
}

fn region_hits(region: &Region, lsg: &Lsg, idx: &SpatialIndex) -> Vec<Hit> {
    let (center, ids) = match region {
        Region::Sphere { center, radius } => {
            (f3(*center), candidates_for_sphere(idx, f3(*center), f(*radius)))
        }
        Region::Aabb { min, max } => (
            centroid(&Aabb { min: *min, max: *max }),
            idx.candidates_in_cells(cell_of(f3(*min)), cell_of(f3(*max))),
        ),
        Region::Frustum(fr) => (
            centroid(&fr.bounds),
            idx.candidates_in_cells(cell_of(f3(fr.bounds.min)), cell_of(f3(fr.bounds.max))),
        ),
    };
    let mut hits = Vec::new();
    for id in ids {
        let e = lsg.get(id).unwrap();
        let c = centroid(&e.extents);
        let inside = match region {
            Region::Sphere { center, radius } => point_in_sphere(c, f3(*center), f(*radius)),
            Region::Aabb { min, max } => aabb_overlaps(&e.extents, *min, *max),
            Region::Frustum(_) => true,
        };
        if inside {
            let dist = (c[0] - center[0]).powi(2)
                + (c[1] - center[1]).powi(2)
                + (c[2] - center[2]).powi(2);
            hits.push(Hit { distance: d(dist), id });
        }
    }
    hits
}

fn all_hits(im: &InterestManager, lsg: &Lsg, idx: &SpatialIndex) -> IdMap<Vec<Hit>> {
    let mut hits = IdMap::new();
    for id in im.ids() {
        if let Some(region) = &im.get(id).unwrap().region {
            hits.insert(id, region_hits(region, lsg, idx));
        }
    }
    hits
}

fn evaluate(im: &mut InterestManager, lsg: &Lsg, idx: &SpatialIndex) -> Transitions {
    let hits = all_hits(im, lsg, idx);
    im.evaluate(lsg, &hits)
}

fn sphere(center: [f64; 3], radius: f64) -> Region {
    Region::Sphere { center: d3(center), radius: d(radius) }
}

// Negotiation.

#[test]
fn negotiate_accepts_v1_rejects_unknown() {
    assert_eq!(negotiate(&["vf.bridge.v1".into()]), Some("vf.bridge.v1"));
    assert_eq!(
        negotiate(&["vf.bridge.v0".into(), "vf.bridge.v1".into()]),
        Some("vf.bridge.v1")
    );
    assert_eq!(negotiate(&["vf.bridge.v2".into()]), None);
    assert_eq!(negotiate(&[]), None);
}

// The render scene of a bridge.

fn geom() -> GeomRef {
    GeomRef {
        payload_uri: "./components/pump.usda".into(),
        prim_path: "/Pump".into(),
        content_hash: "h1".into(),
        lod_ladder: vec![],
    }
}

fn upsert(path: &str) -> BridgeMsg {
    BridgeMsg::UpsertEntity {
        id: EntityId::from_prim_path(path),
        prim_path: path.into(),
        transform: Transform::from_translation(d3([1.0, 0.0, 0.0])),
        extents: Some(Aabb { min: d3([-0.5, -0.5, -0.5]), max: d3([0.5, 0.5, 0.5]) }),
        geom_ref: Some(geom()),
        tags: vec![],
        visual: vec![],
    }
}

#[test]
fn snapshot_begin_clears_then_rebuilds() {
    let mut fb = FakeBridge::new();
    fb.apply(&[
        BridgeMsg::Hello { protocol: PROTOCOL_VERSION.into(), scene_revision: 1 },
        BridgeMsg::SnapshotBegin { subscription: 1, scene_revision: 1 },
        upsert("/a"),
        upsert("/b"),
        BridgeMsg::SnapshotMarker { scene_revision: 1, seq: 1 },
    ]);
    assert_eq!(fb.len(), 2);

    // A second snapshot replaces the whole scene.
    fb.apply(&[
        BridgeMsg::SnapshotBegin { subscription: 1, scene_revision: 2 },
        upsert("/c"),
        BridgeMsg::SnapshotMarker { scene_revision: 2, seq: 2 },
    ]);
    assert_eq!(fb.len(), 1);
    assert!(fb.contains(EntityId::from_prim_path("/c")));
    assert!(!fb.contains(EntityId::from_prim_path("/a")));
    assert_eq!(fb.last_seq, 2);
    assert_eq!(fb.scene_revision, 2);
}

#[test]
fn remove_and_set_transform() {
    let mut fb = FakeBridge::new();
    fb.apply(&[upsert("/a")]);
    let a = EntityId::from_prim_path("/a");
    fb.apply(&[BridgeMsg::SetTransform {
        id: a,
        transform: Transform::from_translation(d3([9.0, 9.0, 9.0])),
    }]);
    assert_eq!(f3(fb.get(a).unwrap().transform.translation()), [9.0, 9.0, 9.0]);
    fb.apply(&[BridgeMsg::RemoveEntity { id: a }]);
    assert!(fb.is_empty());
}

#[test]
fn single_fields_are_set_on_what_is_there() {
    let mut fb = FakeBridge::new();
    let a = EntityId::from_prim_path("/a");
    let visual =
        || vec![VisualSample { attribute: "flow".into(), value: d(1.5), quality: "ok".into() }];
    // Nothing is there yet, so nothing happens.
    fb.apply(&[BridgeMsg::SetOverlayHint { id: a, hint: "x".into() }]);
    assert!(fb.is_empty());
    fb.apply(&[
        upsert("/a"),
        BridgeMsg::SetOverlayHint { id: a, hint: "alarm".into() },
        BridgeMsg::SetVisualState { id: a, visual: visual() },
        BridgeMsg::PickResult { request_id: 3, hit: Some(a) },
    ]);
    let e = fb.get(a).unwrap();
    assert_eq!(e.overlay_hint.as_deref(), Some("alarm"));
    assert_eq!(e.visual, visual());
    assert_eq!(fb.last_pick, Some(a));
    let mut other = geom();
    other.content_hash = "h2".into();
    fb.apply(&[BridgeMsg::SetGeomRef { id: a, geom_ref: other }]);
    assert_eq!(fb.get(a).unwrap().geom_ref.as_ref().unwrap().content_hash, "h2");
}

#[test]
fn hydrate_fills_geometry_once() {
    let mut fb = FakeBridge::new();
    fb.apply(&[upsert("/a"), upsert("/b")]);
    let mut cache = PayloadCache::new(StubPayloadLoader);
    let n = fb.hydrate(&mut cache).unwrap();
    assert_eq!(n, 2);
    assert_eq!(fb.hydrated_count(), 2);
    // Same shared payload content hash: only one distinct load.
    assert_eq!(cache.load_calls(), 1);
    // Idempotent: a second hydrate does nothing.
    assert_eq!(fb.hydrate(&mut cache).unwrap(), 0);
}

// From the scene to the bridge.

const SUB: SubscriptionId = 1;

/// A line of `n` payload-backed components spaced `spacing` apart along +x.
fn line_world(n: usize, spacing: f64, payload_uri: &str, bindings: bool) -> Lsg {
    let mut s = String::new();
    for i in 0..n {
        let x = i as f64 * spacing;
        let (lo, hi) = (x - 0.5, x + 0.5);
        let list = if bindings {
            format!(
                r#"[{{"attribute":"flow","sourceId":"victoriametrics","query":"pump_flow_gpm{{asset=\"E{i}\"}}","unit":"gpm","ttlMs":5000,"priority":"background","qualityPolicy":"stale_ok"}}]"#
            )
        } else {
            "[]".to_string()
        };
        s += &format!(
            r#"{{"primPath":"/W/e{i}","kind":"component","transform":{{"translate":[{x},0,0]}},"extentsHint":[[{lo},-0.5,-0.5],[{hi},0.5,0.5]],"vf":{{"assetTag":"E{i}"}},"tags":["pump"],"geomRef":{{"payloadUri":"{payload_uri}","primPath":"/C","contentHash":"h1"}},"bindings":{list}}}"#,
        );
        s.push('\n');
    }
    build_from_ndjson(&s)
}

const PUMP: &str = "./components/pump.usda";

/// Builds the interest pipeline for a static sphere AOI and drains one step.
fn pipeline(
    lsg: &Lsg,
    center: [f64; 3],
    radius: f64,
    selection: &[EntityId],
) -> (InterestManager, Rsg, PayloadCache<StubPayloadLoader>) {
    let idx = index(lsg);
    let mut sub = Subscription::spatial(SUB, sphere(center, radius), 1000);
    sub.entity_ids = selection.to_vec();
    let mut im = InterestManager::new();
    im.upsert(sub).unwrap();
    let mut rsg = Rsg::new(2);
    let mut c = PayloadCache::new(StubPayloadLoader);
    let t = evaluate(&mut im, lsg, &idx);
    rsg.apply(&t, lsg, &mut c, 0).unwrap();
    (im, rsg, c)
}

fn active_ids(rsg: &Rsg) -> Vec<EntityId> {
    rsg.entities().iter().filter(|re| re.subscribers.contains(SUB)).map(|re| re.id).collect()
}

#[test]
fn fake_bridge_reconstructs_scene_from_diff_stream() {
    // 6 components in a tight AOI; the bridge should mirror the active set.
    let lsg = line_world(6, 2.0, PUMP, false);
    let (im, rsg, mut c) = pipeline(&lsg, [4.0, 0.0, 0.0], 5.0, &[]);
    let overlay = TwinOverlay::new();

    let mut server = BridgeServer::new();
    let mut bridge = FakeBridge::new();
    bridge.apply(&[server.hello(&lsg)]);
    assert_eq!(bridge.protocol.as_deref(), Some(PROTOCOL_VERSION));

    // Drain sub 1's diff (initial activation) and reconstruct from it.
    let mut rsg_mut = rsg;
    let diff = rsg_mut.take_diff(SUB);
    let msgs = server.encode_diff(SUB, &diff, &lsg, &rsg_mut, &overlay);

    // Golden shape: every message is an UpsertEntity (no removes on activation),
    // one per active entity, each carrying a geom ref + tags + resolved xform.
    let expected = active_ids(&rsg_mut);
    assert_eq!(msgs.len(), expected.len());
    let mut seen = Vec::new();
    for m in &msgs {
        match m {
            BridgeMsg::UpsertEntity { id, geom_ref, tags, transform, .. } => {
                assert!(geom_ref.is_some(), "geom ref must carry the USD payload URI");
                assert_eq!(tags, &vec!["pump".to_string()]);
                // authored transform (no pin) resolves through.
                let authored = lsg.get(*id).unwrap().transform_default;
                assert_eq!(transform.translation(), authored.translation());
                seen.push(*id);
            }
            other => panic!("unexpected message on activation: {other:?}"),
        }
    }
    seen.sort();
    assert_eq!(seen, expected);

    bridge.apply(&msgs);
    let _ = bridge.hydrate(&mut c).unwrap();

    // The reconstructed Render Scene equals the subscription's active set.
    assert_eq!(bridge.entity_ids(), expected);
    assert_eq!(bridge.len(), im.active_count(SUB));
    assert_eq!(bridge.hydrated_count(), bridge.len());
    // One distinct payload, hydrated once despite many instances.
    assert_eq!(c.load_calls(), 1);
}

#[test]
fn extents_ride_the_wire_origin_relative() {
    // Each component's authored extentsHint is a world AABB centered on its
    // translate; the emitted UpsertEntity carries that box re-expressed relative
    // to the authored origin.
    let lsg = line_world(4, 2.0, PUMP, false);
    let (_im, mut rsg, _c) = pipeline(&lsg, [4.0, 0.0, 0.0], 100.0, &[]);
    let overlay = TwinOverlay::new();
    let mut server = BridgeServer::new();
    let diff = rsg.take_diff(SUB);
    let msgs = server.encode_diff(SUB, &diff, &lsg, &rsg, &overlay);

    let mut checked = 0;
    for m in &msgs {
        if let BridgeMsg::UpsertEntity { extents, .. } = m {
            let e = extents.expect("proxy box extents must ride the wire");
            // line_world authors [x-0.5,..]..[x+0.5,..]; origin-relative => ±0.5.
            let (min, max) = (f3(e.min), f3(e.max));
            assert!((min[0] - -0.5).abs() < 1e-9, "min.x={min:?}");
            assert!((max[0] - 0.5).abs() < 1e-9, "max.x={max:?}");
            checked += 1;
        }
    }
    assert!(checked > 0, "expected extents-bearing upserts");
}

#[test]
fn snapshot_equals_snapshot_plus_diffs() {
    let lsg = line_world(5, 2.0, PUMP, false);
    let (_im, mut rsg, _c) = pipeline(&lsg, [4.0, 0.0, 0.0], 5.0, &[]);
    let overlay = TwinOverlay::new();

    // Bridge A: reconstruct from the live diff stream.
    let mut sa = BridgeServer::new();
    let mut a = FakeBridge::new();
    let diff = rsg.take_diff(SUB);
    a.apply(&sa.encode_diff(SUB, &diff, &lsg, &rsg, &overlay));

    // Bridge B: reconstruct from a full snapshot.
    let mut sb = BridgeServer::new();
    let mut b = FakeBridge::new();
    b.apply(&sb.snapshot(SUB, &lsg, &rsg, &overlay));

    // Same entities, same resolved state.
    assert_eq!(a.entity_ids(), b.entity_ids());
    for id in a.entity_ids() {
        assert_eq!(a.get(id), b.get(id), "entity {id:?} differs between diff and snapshot");
    }
    assert_eq!(sb.seq(), 1);
    assert_eq!(b.last_seq, 1);
}

/// The whole scene of a bridge.
fn shown(bridge: &FakeBridge) -> Vec<String> {
    bridge.entities().iter().map(|e| format!("{e:?}")).collect()
}

#[test]
fn reconnect_resyncs_identically_and_pin_survives() {
    let lsg = line_world(6, 2.0, PUMP, false);
    let sel = EntityId::from_prim_path("/W/e0");
    // Keep e0 selected so it stays active regardless of the AOI.
    let (_im, mut rsg, mut c) = pipeline(&lsg, [6.0, 0.0, 0.0], 5.0, &[sel]);
    let mut overlay = TwinOverlay::new();

    let mut server = BridgeServer::new();
    let mut bridge = FakeBridge::new();
    bridge.apply(&[server.hello(&lsg)]);
    let diff = rsg.take_diff(SUB);
    bridge.apply(&server.encode_diff(SUB, &diff, &lsg, &rsg, &overlay));
    bridge.hydrate(&mut c).unwrap();

    // Pin e0 through the bridge write-back BEFORE disconnecting.
    let prim = lsg.get(sel).unwrap().prim_path.clone();
    let pinned = Transform::from_translation(d3([0.0, 0.0, 99.0]));
    server.handle_pin(sel, &prim, pinned, Some("op"), 0, &mut overlay);
    // Re-upsert e0 so the live scene reflects the pin.
    let redraw = RsgDiff { upserts: vec![sel], removes: vec![] };
    bridge.apply(&server.encode_diff(SUB, &redraw, &lsg, &rsg, &overlay));

    // Capture the live scene, then disconnect (drop the disposable cache).
    let before = shown(&bridge);
    bridge.disconnect();
    assert!(bridge.is_empty(), "disconnect drops the cache");
    assert_eq!(bridge.protocol, None);
    assert_eq!((bridge.scene_revision, bridge.last_seq), (0, 0));

    // Reconnect: rebuild purely from a fresh Hello + snapshot.
    bridge.apply(&[server.hello(&lsg)]);
    bridge.apply(&server.snapshot(SUB, &lsg, &rsg, &overlay));
    bridge.hydrate(&mut c).unwrap();

    let after = shown(&bridge);
    assert_eq!(before, after, "reconnect must reconstruct the scene identically");

    // The pin survived the reconnect because it lives in the overlay, not the
    // (discarded) render session.
    assert_eq!(f3(bridge.get(sel).unwrap().transform.translation()), [0.0, 0.0, 99.0]);
}

#[test]
fn pin_and_unpin_write_back_with_zero_usd_or_lsg_mutation() {
    let lsg = line_world(3, 2.0, PUMP, false);
    let (_im, rsg, _c) = pipeline(&lsg, [2.0, 0.0, 0.0], 5.0, &[]);
    let mut overlay = TwinOverlay::new();
    let start_rev = lsg.revision();
    let start_overlay_rev = overlay.revision();

    let server = BridgeServer::new();
    let target = EntityId::from_prim_path("/W/e1");
    let prim = lsg.get(target).unwrap().prim_path.clone();
    let authored = lsg.get(target).unwrap().transform_default;

    // PinPart -> write-back -> PinConfirm.
    let pinned = Transform::from_translation(d3([7.0, 8.0, 9.0]));
    let confirm = server.handle_pin(target, &prim, pinned, Some("op"), 0, &mut overlay);
    let rev = match confirm {
        BridgeMsg::PinConfirm { id, transform, revision } => {
            assert_eq!(id, target);
            assert_eq!(f3(transform.translation()), [7.0, 8.0, 9.0]);
            revision
        }
        other => panic!("expected PinConfirm, got {other:?}"),
    };
    assert!(rev > start_overlay_rev, "overlay revision must bump");
    assert!(overlay.get_pin(target).is_some());

    // The next upsert for the pinned entity carries the pinned transform.
    let mut server = BridgeServer::new();
    let redraw = RsgDiff { upserts: vec![target], removes: vec![] };
    let msgs = server.encode_diff(SUB, &redraw, &lsg, &rsg, &overlay);
    match &msgs[0] {
        BridgeMsg::UpsertEntity { transform, .. } => {
            assert_eq!(f3(transform.translation()), [7.0, 8.0, 9.0], "pin > authored");
        }
        other => panic!("expected UpsertEntity, got {other:?}"),
    }

    // UnpinPart -> reverts to authored.
    server.handle_unpin(target, authored, &mut overlay);
    assert!(overlay.get_pin(target).is_none());
    let msgs = server.encode_diff(SUB, &redraw, &lsg, &rsg, &overlay);
    match &msgs[0] {
        BridgeMsg::UpsertEntity { transform, .. } => {
            assert_eq!(transform.translation(), authored.translation());
        }
        other => panic!("expected UpsertEntity, got {other:?}"),
    }

    // The LSG index was never mutated (proxy for zero USD writes).
    assert_eq!(lsg.revision(), start_rev, "the bridge never mutates the LSG");
}

/// Where a ray enters a box, by the slab method.
fn ray_aabb(origin: [f64; 3], dir: [f64; 3], a: &Aabb) -> Option<f64> {
    let (min, max) = (f3(a.min), f3(a.max));
    let (mut near, mut far) = (f64::NEG_INFINITY, f64::INFINITY);
    for i in 0..3 {
        if dir[i].abs() < 1e-12 {
            if origin[i] < min[i] || origin[i] > max[i] {
                return None;
            }
        } else {
            let (t1, t2) = ((min[i] - origin[i]) / dir[i], (max[i] - origin[i]) / dir[i]);
            near = near.max(t1.min(t2));
            far = far.min(t1.max(t2));
        }
    }
    if near > far || far < 0.0 {
        None
    } else {
        Some(near.max(0.0))
    }
}

fn ray_hits(lsg: &Lsg, origin: [f64; 3], dir: [f64; 3]) -> Vec<RayHit> {
    lsg.entities()
        .iter()
        .filter_map(|e| ray_aabb(origin, dir, &e.extents).map(|t| RayHit { id: e.id, t: d(t) }))
        .collect()
}

#[test]
fn coarse_pick_returns_nearest_hit_and_none_on_miss() {
    // Two boxes on the x-axis; a ray down +z at x=0 must hit e0 (nearest).
    let lsg = line_world(3, 10.0, PUMP, false);
    let (_im, rsg, _c) = pipeline(&lsg, [10.0, 0.0, 0.0], 100.0, &[]); // AOI covers all 3
    let server = BridgeServer::new();

    // Ray from behind through e0's column (x=0).
    let hits = ray_hits(&lsg, [0.0, 0.0, -50.0], [0.0, 0.0, 1.0]);
    match server.coarse_pick(SUB, 1, &hits, &lsg, &rsg) {
        BridgeMsg::PickResult { request_id, hit } => {
            assert_eq!(request_id, 1);
            assert_eq!(hit, Some(EntityId::from_prim_path("/W/e0")));
        }
        other => panic!("expected PickResult, got {other:?}"),
    }

    // Along the line the nearest box wins, in whatever order the hits come.
    let mut hits = ray_hits(&lsg, [-50.0, 0.0, 0.0], [1.0, 0.0, 0.0]);
    assert_eq!(hits.len(), 3);
    for _ in 0..3 {
        hits.rotate_left(1);
        match server.coarse_pick(SUB, 3, &hits, &lsg, &rsg) {
            BridgeMsg::PickResult { hit, .. } => {
                assert_eq!(hit, Some(EntityId::from_prim_path("/W/e0")));
            }
            other => panic!("expected PickResult, got {other:?}"),
        }
    }

    // What is not active for the subscription cannot be picked.
    let none = server.coarse_pick(SUB + 1, 4, &hits, &lsg, &rsg);
    assert!(matches!(none, BridgeMsg::PickResult { hit: None, .. }));

    // Ray far off in +y misses every box.
    let hits = ray_hits(&lsg, [0.0, 100.0, -50.0], [0.0, 0.0, 1.0]);
    let miss = server.coarse_pick(SUB, 2, &hits, &lsg, &rsg);
    assert!(matches!(miss, BridgeMsg::PickResult { hit: None, .. }));

    // Direct unit-level sanity on the slab math.
    let box_ = Aabb { min: d3([-0.5; 3]), max: d3([0.5; 3]) };
    assert!(ray_aabb([0.0, 0.0, -5.0], [0.0, 0.0, 1.0], &box_).is_some());
    assert!(ray_aabb([5.0, 0.0, -5.0], [0.0, 0.0, 1.0], &box_).is_none());
}

#[test]
fn geom_refs_carry_uris_that_point_at_fixture_usd() {
    // The emitted GeomRefs carry the component's URI as it was authored.
    let components =
        ["./components/pump.usda", "./components/tank.usda", "./components/distribution_switch.usda"];
    for uri in components {
        let lsg = line_world(4, 2.0, uri, false);
        let (_im, mut rsg, _c) = pipeline(&lsg, [4.0, 0.0, 0.0], 100.0, &[]);
        let overlay = TwinOverlay::new();
        let mut server = BridgeServer::new();
        let diff = rsg.take_diff(SUB);
        let msgs = server.encode_diff(SUB, &diff, &lsg, &rsg, &overlay);

        let mut checked = 0;
        for m in &msgs {
            if let BridgeMsg::UpsertEntity { geom_ref: Some(g), .. } = m {
                assert_eq!(g.payload_uri, uri);
                checked += 1;
            }
        }
        assert!(checked > 0, "expected at least one GeomRef-bearing upsert");
    }
}

#[test]
fn protocol_is_negotiated_on_connect() {
    assert_eq!(negotiate(&[PROTOCOL_VERSION.to_string()]), Some(PROTOCOL_VERSION));
    assert_eq!(negotiate(&["vf.bridge.v9".to_string()]), None);

    // A Connect handshake with a matching version yields a Hello; the fake
    // bridge records the negotiated protocol.
    let lsg = line_world(1, 2.0, PUMP, false);
    let server = BridgeServer::new();
    let mut bridge = FakeBridge::new();
    bridge.apply(&[server.hello(&lsg)]);
    assert_eq!(bridge.protocol.as_deref(), Some(PROTOCOL_VERSION));

    // RegionWire lowers to the interest Region (bridge builds the same struct).
    let region = RegionWire::Sphere { center: d3([0.0, 3.0, 0.0]), radius: d(8.0) };
    assert!(matches!(region.to_region(), Region::Sphere { radius, .. } if f(radius) == 8.0));
}

#[test]
fn a_walk_is_streamed_to_the_bridge() {
    let lsg = line_world(20, 2.0, PUMP, false);
    let idx = index(&lsg);
    let mut overlay = TwinOverlay::new();
    let far = EntityId::from_prim_path("/W/e19");
    let mut sub = Subscription::spatial(SUB, sphere([0.0; 3], 5.0), 100);
    sub.entity_ids = vec![far];
    let mut m = Mirror::new(1, StubPayloadLoader);
    m.flow.interest.upsert(sub).unwrap();
    m.greet(&lsg);
    assert_eq!(m.bridge.protocol.as_deref(), Some(PROTOCOL_VERSION));
    for step in 0..6u64 {
        m.flow.interest.set_region(SUB, sphere([step as f64 * 6.0, 0.0, 0.0], 5.0));
        let hits = all_hits(&m.flow.interest, &lsg, &idx);
        let sent = m.stream(SUB, &lsg, &hits, step, &overlay).unwrap();
        let diff = &sent.advance.diff;
        assert_eq!(sent.messages, diff.upserts.len() + diff.removes.len());
        assert_eq!(sent.advance.active, m.flow.interest.active_count(SUB));
        assert!(m.mirrors_active_set(SUB));
        assert_eq!(m.bridge.entity_ids(), active_ids(&m.flow.rsg));
        assert_eq!(m.bridge.hydrated_count(), m.bridge.len());
    }

    let to = Transform::from_translation(d3([0.0, 0.0, 9.0]));
    let revision = m.pin(far, "/W/e19", to, Some("op"), 3, &lsg, &mut overlay);
    assert_eq!(revision, 1);
    assert_eq!(f3(m.bridge.get(far).unwrap().transform.translation()), [0.0, 0.0, 9.0]);
    let before = shown(&m.bridge);
    let n = m.resync(SUB, &lsg, &overlay).unwrap();
    assert_eq!(n, m.bridge.len() + 2);
    assert_eq!(before, shown(&m.bridge));

    let hits = ray_hits(&lsg, [38.0, 0.0, -50.0], [0.0, 0.0, 1.0]);
    m.pick(SUB, 1, &hits, &lsg);
    assert_eq!(m.bridge.last_pick, Some(far));
}

// One connection.

const AOI_RADIUS: f64 = 8.0;
const BUDGET: usize = 1000;

type TestSession = Session<StubPayloadLoader, StubResolver>;

fn new_session() -> TestSession {
    Session::new(d(AOI_RADIUS), BUDGET, 2, StubPayloadLoader, StubResolver::new(d(42.0)))
}

fn session_hits(s: &TestSession, lsg: &Lsg, idx: &SpatialIndex) -> IdMap<Vec<Hit>> {
    let mut hits = IdMap::new();
    if let Some(region) = &s.subscription().region {
        hits.insert(SUB, region_hits(region, lsg, idx));
    }
    hits
}

/// Connects: the greeting, and the snapshot behind it.
fn connect(
    lsg: &Lsg,
    idx: &SpatialIndex,
    overlay: &TwinOverlay,
) -> (TestSession, Vec<BridgeMsg>, Vec<BridgeMsg>) {
    let first = BridgeRequest::Connect { protocol_versions: vec![PROTOCOL_VERSION.to_string()] };
    assert_eq!(greet(Some(&first)), Greeting::Agreed);
    let mut s = new_session();
    let hello = vec![s.hello(lsg)];
    let hits = session_hits(&s, lsg, idx);
    let snap = s.open(lsg, &hits, overlay, 1000).unwrap();
    (s, hello, snap)
}

fn reconstruct(batches: &[Vec<BridgeMsg>]) -> FakeBridge {
    let mut fb = FakeBridge::new();
    for b in batches {
        fb.apply(b);
    }
    fb
}

fn reply(step: Step) -> Vec<BridgeMsg> {
    match step {
        Step::Reply(msgs) => msgs,
        other => panic!("expected a reply, got {other:?}"),
    }
}

#[test]
fn greetings_depend_on_the_first_frame() {
    assert_eq!(greet(None), Greeting::Closed);
    let other = BridgeRequest::Heartbeat { subscription: 1, budget: 3 };
    assert_eq!(greet(Some(&other)), Greeting::NotConnect);
    let old = BridgeRequest::Connect { protocol_versions: vec!["vf.bridge.v0".into()] };
    assert_eq!(greet(Some(&old)), Greeting::NoCommonVersion);
}

#[test]
fn connect_hello_snapshot_over_the_wire() {
    let lsg = line_world(8, 2.0, PUMP, true);
    let idx = index(&lsg);
    let overlay = TwinOverlay::new();
    let (_s, hello, snap) = connect(&lsg, &idx, &overlay);

    // Frame 1: [Hello]. Frame 2: the snapshot batch.
    assert!(matches!(
        hello.as_slice(),
        [BridgeMsg::Hello { protocol, .. }] if protocol == PROTOCOL_VERSION
    ));
    assert!(matches!(snap.first(), Some(BridgeMsg::SnapshotBegin { .. })));
    assert!(matches!(snap.last(), Some(BridgeMsg::SnapshotMarker { .. })));

    // Reconstruct and compare to a snapshot made step by step.
    let fb = reconstruct(&[hello, snap]);
    let (_im, rsg, _c) = pipeline(&lsg, [0.0, 0.0, 0.0], AOI_RADIUS, &[]);
    let expected = BridgeServer::new().snapshot(SUB, &lsg, &rsg, &overlay);
    let mut expected_ids: Vec<EntityId> = expected
        .iter()
        .filter_map(|m| match m {
            BridgeMsg::UpsertEntity { id, extents, .. } => {
                assert!(extents.is_some(), "proxy box extents must ride the wire");
                Some(*id)
            }
            _ => None,
        })
        .collect();
    expected_ids.sort();
    assert!(!expected_ids.is_empty(), "default AOI should activate some boxes");
    assert_eq!(fb.entity_ids(), expected_ids, "wire reconstruction == snapshot");
    // Every reconstructed box carries origin-relative extents + telemetry tint.
    for id in fb.entity_ids() {
        let e = fb.get(id).unwrap();
        assert!(e.extents.is_some(), "reconstructed box needs extents");
        assert!(!e.visual.is_empty(), "offline stub tint should attach ok telemetry");
        assert_eq!(e.visual[0].quality, "ok");
        assert_eq!(f(e.visual[0].value), 42.0);
    }
}

#[test]
fn update_aoi_streams_a_diff() {
    let lsg = line_world(8, 2.0, PUMP, true);
    let idx = index(&lsg);
    let mut overlay = TwinOverlay::new();
    let (mut s, hello, snap) = connect(&lsg, &idx, &overlay);
    let mut fb = reconstruct(&[hello, snap]);
    let before = fb.entity_ids();

    // Move the AOI far down +x so a different active set is streamed as a diff.
    let req = BridgeRequest::UpdateAoi {
        subscription: SUB,
        region: RegionWire::Sphere { center: d3([12.0, 0.0, 0.0]), radius: d(AOI_RADIUS) },
    };
    let step = s.handle_request(req, &lsg, &mut overlay, 0);
    assert!(matches!(step, Step::Evaluate));
    let hits = session_hits(&s, &lsg, &idx);
    let diff = s.evaluate(&lsg, &hits, &overlay, 2000).unwrap();
    assert!(
        diff.iter()
            .any(|m| matches!(m, BridgeMsg::UpsertEntity { .. } | BridgeMsg::RemoveEntity { .. })),
        "moving the AOI must stream upserts/removes"
    );
    fb.apply(&diff);
    let after = fb.entity_ids();
    assert_ne!(before, after, "the active set changes when the camera AOI moves");
    // What the bridge shows is what is active.
    assert_eq!(after, active_ids(s.working_set()));
}

#[test]
fn pin_over_the_wire_survives_reconnect_zero_lsg_mutation() {
    let lsg = line_world(8, 2.0, PUMP, true);
    let idx = index(&lsg);
    let start_rev = lsg.revision();
    let mut overlay = TwinOverlay::new();

    // ---- Connection A: connect, pin an active entity, capture the scene. ----
    let (mut a, hello_a, snap_a) = connect(&lsg, &idx, &overlay);
    let mut fb_a = reconstruct(&[hello_a, snap_a]);

    // Pick a box in the active set and pin it (raise it in z).
    let target = *fb_a.entity_ids().first().expect("active set non-empty");
    let cur = f3(fb_a.get(target).unwrap().transform.translation());
    let pinned = Transform::from_translation(d3([cur[0], cur[1], cur[2] + 8.0]));
    let req = BridgeRequest::PinPart { id: target, transform: pinned };
    let pin_batch = reply(a.handle_request(req, &lsg, &mut overlay, 77));

    // The reply is a PinConfirm + a re-upsert reflecting the pin.
    assert!(
        pin_batch.iter().any(|m| matches!(m, BridgeMsg::PinConfirm { id, .. } if *id == target)),
        "pin must be confirmed"
    );
    fb_a.apply(&pin_batch);
    assert_eq!(
        f3(fb_a.get(target).unwrap().transform.translation()),
        [cur[0], cur[1], cur[2] + 8.0],
        "the pinned box snaps to the confirmed transform"
    );
    assert_eq!(overlay.get_pin(target).unwrap().pinned_by.as_deref(), Some("observer"));
    let state = |fb: &FakeBridge| -> Vec<(EntityId, [f64; 3])> {
        fb.entities().iter().map(|e| (e.id, f3(e.transform.translation()))).collect()
    };
    let after_pin_a = state(&fb_a);

    // ---- Connection B: reconnect fresh; snapshot must rebuild identically. ----
    let (mut b, hello_b, snap_b) = connect(&lsg, &idx, &overlay);
    let fb_b = reconstruct(&[hello_b, snap_b]);
    assert_eq!(after_pin_a, state(&fb_b), "reconnect reconstructs the scene identically");
    // The pin survived because it lives in the Twin Overlay, not the session.
    assert_eq!(
        f3(fb_b.get(target).unwrap().transform.translation()),
        [cur[0], cur[1], cur[2] + 8.0]
    );
    // The bridge never mutates the LSG index (proxy for zero USD writes).
    assert_eq!(lsg.revision(), start_rev, "serving never mutates the LSG");

    // Unpinning goes back to what was authored.
    let batch = reply(b.handle_request(
        BridgeRequest::UnpinPart { id: target },
        &lsg,
        &mut overlay,
        78,
    ));
    assert_eq!(batch.len(), 2);
    assert!(overlay.get_pin(target).is_none());
    // An entity that the scene lacks is not pinned.
    let nowhere = BridgeRequest::PinPart { id: EntityId(1), transform: pinned };
    assert!(reply(b.handle_request(nowhere, &lsg, &mut overlay, 79)).is_empty());
    assert_eq!(overlay.pin_count(), 0);
}

#[test]
fn requests_change_the_subscription() {
    let lsg = line_world(8, 2.0, PUMP, true);
    let idx = index(&lsg);
    let mut overlay = TwinOverlay::new();
    let (mut s, _, _) = connect(&lsg, &idx, &overlay);
    let far = EntityId::from_prim_path("/W/e7");

    let extras = BridgeRequest::SubscribeExtras { subscription: SUB, entity_ids: vec![far, far] };
    assert!(matches!(s.handle_request(extras, &lsg, &mut overlay, 0), Step::Evaluate));
    assert_eq!(s.subscription().entity_ids, vec![far]);
    let hits = session_hits(&s, &lsg, &idx);
    let diff = s.evaluate(&lsg, &hits, &overlay, 2000).unwrap();
    assert!(diff.iter().any(|m| matches!(m, BridgeMsg::UpsertEntity { id, .. } if *id == far)));

    for (budget, kept) in [(0, BUDGET), (3, 3)] {
        let beat = BridgeRequest::Heartbeat { subscription: SUB, budget };
        assert!(reply(s.handle_request(beat, &lsg, &mut overlay, 0)).is_empty());
        assert_eq!(s.subscription().budget, kept);
    }
    let pick = BridgeRequest::PickRequest {
        request_id: 9,
        origin: d3([0.0, 0.0, -50.0]),
        dir: d3([0.0, 0.0, 1.0]),
    };
    match s.handle_request(pick, &lsg, &mut overlay, 0) {
        Step::Pick { request_id, origin, dir } => {
            let hits = ray_hits(&lsg, f3(origin), f3(dir));
            let m = s.pick(request_id, &hits, &lsg);
            let hit = Some(EntityId::from_prim_path("/W/e0"));
            assert_eq!(m, BridgeMsg::PickResult { request_id: 9, hit });
        }
        other => panic!("expected a pick, got {other:?}"),
    }
    let again = BridgeRequest::Connect { protocol_versions: vec![] };
    assert_eq!(reply(s.handle_request(again, &lsg, &mut overlay, 0)), vec![s.hello(&lsg)]);
}

#[test]
fn telemetry_sources_describe_themselves() {
    let offline = TelemetryConfig::Offline { value: d(42.0), shown: "42".into() };
    assert_eq!(offline.describe(), "stub (canned 42)");
    assert_eq!(TelemetryConfig::Outage.describe(), "stub (simulated outage)");
    assert_eq!(TelemetryConfig::Vm("http://x".into()).describe(), "VictoriaMetrics http://x");
}

// Geometry.

fn v3(p: [f32; 3]) -> Vec3 {
    Vec3 { x: p[0].to_bits(), y: p[1].to_bits(), z: p[2].to_bits() }
}

fn tri_mesh() -> Mesh {
    Mesh {
        positions: vec![v3([0.0, 0.0, 0.0]), v3([1.0, 0.0, 0.0]), v3([0.0, 1.0, 0.0])],
        normals: vec![v3([0.0, 0.0, 1.0]), v3([0.0, 0.0, 1.0]), v3([0.0, 0.0, 1.0])],
        indices: vec![0, 1, 2],
    }
}

const MIN: &str = "[0.0,0.0,0.0]";
const MAX: &str = "[1.0,1.0,0.0]";

fn handle(uri: &str, hash: &str) -> GeomRef {
    GeomRef {
        payload_uri: uri.to_string(),
        prim_path: "/C".to_string(),
        content_hash: hash.to_string(),
        lod_ladder: vec![],
    }
}

/// A canned loader that hands back a fixed mesh for known hashes.
struct CannedMeshLoader {
    known: Vec<String>,
}

impl MeshLoader for CannedMeshLoader {
    fn load(&self, geom: &GeomRef) -> Result<Option<LoadedMesh>, LoadError> {
        if self.known.contains(&geom.content_hash) {
            Ok(Some(LoadedMesh { mesh: tri_mesh(), min_json: MIN.into(), max_json: MAX.into() }))
        } else if geom.content_hash == "broken" {
            Err(LoadError { message: "broken".into() })
        } else {
            Ok(None)
        }
    }
}

#[test]
fn glb_round_trips() {
    let mesh = tri_mesh();
    let glb = encode_glb(&mesh, MIN, MAX).unwrap();
    assert_eq!(&glb[0..4], b"glTF", "GLB magic");
    let back = decode_glb(&glb).unwrap();
    assert_eq!(back, mesh, "GLB round-trip preserves the mesh");
    assert!(back.vertex_count() > 0);
    // The container: version, total length, and a document of JSON.
    assert_eq!(&glb[4..8], &2u32.to_le_bytes());
    assert_eq!(&glb[8..12], &(glb.len() as u32).to_le_bytes());
    assert_eq!(&glb[16..20], b"JSON");
    let json_len = u32::from_le_bytes([glb[12], glb[13], glb[14], glb[15]]) as usize;
    assert_eq!(json_len % 4, 0);
    let doc: Value = serde_json::from_slice(&glb[20..20 + json_len]).unwrap();
    assert_eq!(doc["accessors"][0]["count"], 3);
    assert_eq!(doc["accessors"][0]["min"].to_string(), MIN);
    assert_eq!(doc["accessors"][0]["max"].to_string(), MAX);
}

#[test]
fn an_empty_mesh_round_trips() {
    let mesh = Mesh { positions: vec![], normals: vec![], indices: vec![] };
    assert!(mesh.is_empty());
    let glb = encode_glb(&mesh, MIN, MIN).unwrap();
    assert_eq!(decode_glb(&glb).unwrap(), mesh);
    // Bounds that are no JSON give no file.
    assert!(encode_glb(&tri_mesh(), "[0", MAX).is_none());
    assert!(encode_glb(&tri_mesh(), MIN, "").is_none());
    // JSON that takes the document apart leaves no template for a mesh.
    assert!(encode_glb(&tri_mesh(), "[0,0,0],\"count\":\"many\"", MAX).is_none());
    assert!(encode_glb(&tri_mesh(), "[]},{\"more\":0", MAX).is_none());
}

#[test]
fn meshes_of_many_sizes_round_trip() {
    for n in 0..20u32 {
        let vec = |i: u32| Vec3 { x: i, y: n, z: u32::MAX - i };
        let mesh = Mesh {
            positions: (0..n).map(vec).collect(),
            normals: (0..n).map(|i| vec(i + 7)).collect(),
            indices: (0..n * 3).collect(),
        };
        let glb = encode_glb(&mesh, MIN, MAX).unwrap();
        assert_eq!(glb.len() % 4, 0);
        assert_eq!(decode_glb(&glb), Ok(mesh));
    }
}

#[test]
fn damaged_glb_is_refused() {
    let glb = encode_glb(&tri_mesh(), MIN, MAX).unwrap();
    assert_eq!(try_decode_glb(&glb[..11]), Err(GlbError::TooShort));
    let mut bad = glb.clone();
    bad[0] = b'x';
    assert_eq!(try_decode_glb(&bad), Err(GlbError::BadMagic));
    let mut bad = glb.clone();
    bad[12] = 0xff;
    bad[13] = 0xff;
    assert_eq!(try_decode_glb(&bad), Err(GlbError::Overrun));
    let mut bad = glb.clone();
    bad[16] = b'X';
    assert_eq!(try_decode_glb(&bad), Err(GlbError::MissingJson));
    let mut bad = glb.clone();
    bad[20] = b'!';
    assert_eq!(try_decode_glb(&bad), Err(GlbError::BadJson));
    assert_eq!(read_u32(&glb, 4), Ok(2));
    assert_eq!(read_u32(&glb, glb.len() - 3), Err(GlbError::Truncated));
    assert_eq!(read_u32(&glb, usize::MAX), Err(GlbError::Truncated));
}

#[test]
fn documents_without_their_parts_are_refused() {
    let read = |json: &str| {
        let glb = frame_glb(&json.as_bytes().to_vec(), &vec![0; 12]);
        assert_eq!(split_glb(&glb).unwrap().0, json.as_bytes());
        try_decode_glb(&glb)
    };
    assert_eq!(read("nonsense"), Err(GlbError::BadJson));
    assert_eq!(read("{}"), Err(GlbError::NoAccessors));
    assert_eq!(read(r#"{"accessors":[]}"#), Err(GlbError::NoBufferViews));
    assert_eq!(read(r#"{"accessors":[],"bufferViews":[]}"#), Err(GlbError::NoPosition));
    let lists = r#""accessors":[{"count":1,"bufferView":0},{"count":1}],"bufferViews":[{}]"#;
    let doc = |prim: &str| format!(r#"{{{lists},"meshes":[{{"primitives":[{prim}]}}]}}"#);
    let position = r#"{"attributes":{"POSITION":0}}"#;
    assert_eq!(read(&doc(position)), Err(GlbError::NoIndices));
    // The second accessor names no buffer view, and there is no third one.
    let prim = |i: u32| format!(r#"{{"attributes":{{"POSITION":0}},"indices":{i}}}"#);
    assert_eq!(read(&doc(&prim(1))), Err(GlbError::NoBufferView));
    assert_eq!(read(&doc(&prim(2))), Ok(None));
    let mesh = read(&doc(&prim(0))).unwrap().unwrap();
    assert_eq!(mesh.positions, vec![v3([0.0; 3])]);
    assert!(mesh.normals.is_empty());
    assert_eq!(mesh.indices, vec![0]);
}

#[test]
fn layouts_are_read_off_documents() {
    let mesh = tri_mesh();
    let glb = encode_glb(&mesh, MIN, MAX).unwrap();
    let (json, bin) = split_glb(&glb).unwrap();
    let slot = |i: u64, n: u64, at: u64| {
        Some(Slot { accessor: i, view: Some(i), count: Some(n), offset: Some(at) })
    };
    let layout = Layout {
        document: true,
        accessors: Some(3),
        views: Some(3),
        positions: slot(0, 3, 0),
        normals: slot(1, 3, 36),
        indices: slot(2, 3, 72),
    };
    assert_eq!(read_layout(&json), layout);
    let parts = Parts {
        positions: Part { base: 0, count: 3 },
        normals: Some(Part { base: 36, count: 3 }),
        indices: Part { base: 72, count: 3 },
    };
    assert_eq!(find_parts(&layout, bin.len()), Ok(Some(parts)));
    assert_eq!(assemble(&layout, &bin), Ok(mesh));
    // In a shorter chunk the indices lie outside.
    assert_eq!(find_parts(&layout, bin.len() - 1), Ok(None));
    assert_eq!(find_parts(&Layout { document: false, ..layout }, 0), Err(GlbError::BadJson));
    let far = Layout { positions: slot(0, u64::MAX, u64::MAX), ..layout };
    assert_eq!(find_parts(&far, bin.len()), Ok(None));
}

#[test]
fn padding_fills_up_to_four() {
    for n in 0..9usize {
        let mut v = vec![1u8; n];
        pad_to_4(&mut v, 0x20);
        assert_eq!(v.len(), n.div_ceil(4) * 4);
        assert!(v[n..].iter().all(|b| *b == 0x20));
    }
}

#[test]
fn store_dedups_and_tessellates_once() {
    let mut store = GeomStore::new(CannedMeshLoader { known: vec!["h1".to_string()] });
    // Three instances share one payload hash; a second distinct hash exists.
    store.register(handle("./pump.usda", "h1"));
    store.register(handle("./pump.usda", "h1"));
    store.register(handle("./tank.usda", "h2"));
    assert_eq!(store.known_hashes(), 2, "identical hashes dedup");

    let a = store.fetch("h1").unwrap().expect("known mesh");
    let b = store.fetch("h1").unwrap().expect("cached mesh");
    assert_eq!(a.as_slice(), b.as_slice());
    assert_eq!(store.load_calls(), 1, "tessellate once, then cache hit");
    assert_eq!(store.cached_count(), 1);

    // h2 has no canned mesh -> None (proxy box stays); unknown hash -> None.
    assert!(store.fetch("h2").unwrap().is_none());
    assert!(store.fetch("nope").unwrap().is_none());
    assert!(store.fetch("").unwrap().is_none());

    store.register(handle("./broken.usda", "broken"));
    assert_eq!(store.fetch("broken").unwrap_err().message, "broken");
}

#[test]
fn from_lsg_indexes_hashes_without_mutation() {
    let nd = r#"
{"primPath":"/W/a","kind":"component","geomRef":{"payloadUri":"./pump.usda","primPath":"/Pump","contentHash":"h1"}}
{"primPath":"/W/b","kind":"component","geomRef":{"payloadUri":"./pump.usda","primPath":"/Pump","contentHash":"h1"}}
{"primPath":"/W/c","kind":"component","geomRef":{"payloadUri":"./tank.usda","primPath":"/Tank","contentHash":"h2"}}
"#;
    let lsg = build_from_ndjson(nd);
    let rev = lsg.revision();
    let store = GeomStore::from_lsg(StubMeshLoader, &lsg);
    assert_eq!(store.known_hashes(), 2);
    assert_eq!(lsg.revision(), rev, "building the store never mutates the LSG");
}

#[test]
fn fetch_geom_returns_glb_for_known_hash_and_empty_for_unknown() {
    let lsg = line_world(6, 2.0, PUMP, false);
    let idx = index(&lsg);
    let mut overlay = TwinOverlay::new();
    let mut store =
        GeomStore::from_lsg(CannedMeshLoader { known: vec!["h1".to_string()] }, &lsg);
    let (mut s, hello, snap) = connect(&lsg, &idx, &overlay);
    assert!(matches!(hello.as_slice(), [BridgeMsg::Hello { .. }]));

    // A snapshot upsert must carry the geom ref whose hash we can fetch.
    let hash = snap
        .iter()
        .find_map(|m| match m {
            BridgeMsg::UpsertEntity { geom_ref: Some(g), .. } if !g.content_hash.is_empty() => {
                Some(g.content_hash.clone())
            }
            _ => None,
        })
        .expect("an active entity should carry a GeomRef content hash");
    assert_eq!(hash, "h1");

    let mut fetch = |s: &mut TestSession, content_hash: String| -> Vec<u8> {
        let req = BridgeRequest::FetchGeom { content_hash };
        match s.handle_request(req, &lsg, &mut overlay, 0) {
            Step::Fetch { content_hash } => {
                store.fetch(&content_hash).unwrap().map_or(vec![], |glb| glb.to_vec())
            }
            other => panic!("expected a fetch, got {other:?}"),
        }
    };

    // Known hash: a valid GLB that decodes to a positive vertex count.
    let glb = fetch(&mut s, hash);
    assert!(!glb.is_empty(), "known hash must return GLB bytes");
    assert_eq!(&glb[0..4], b"glTF", "binary frame is a GLB");
    let mesh = decode_glb(&glb).expect("valid GLB");
    assert!(mesh.vertex_count() > 0, "mesh has vertices");

    // Unknown hash: an empty frame (client keeps its proxy box).
    let empty = fetch(&mut s, "does-not-exist".to_string());
    assert!(empty.is_empty(), "unknown hash returns an empty frame");
}
