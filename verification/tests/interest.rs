//! Areas of interest, the working set that follows them, and its payloads.

use std::collections::BTreeSet;

use serde_json::Value;

use vectorflow_sgs::alert::{force_subscription, AlertEvent, AlertSource, StubAlertSource};
use vectorflow_sgs::dict::TextMap;
use vectorflow_sgs::hydrate::{
    HydratedPayload, LoadError, PayloadCache, PayloadLoader, StubPayloadLoader,
};
use vectorflow_sgs::import::{build, record_text, GeomRefRecord, PrimRecord, TransformRecord};
use vectorflow_sgs::interest::{
    sort_hits, Hit, InterestManager, Interaction, Region, SubscriberKind, Subscription,
    SubscriptionId, Transitions, ViewerProfile,
};
use vectorflow_sgs::lsg::{
    Aabb, Entity, EntityId, GeomRef, Lsg, TelemetryBinding, Transform, VfItem, VfValue,
};
use vectorflow_sgs::pipeline::Pipeline;
use vectorflow_sgs::rsg::Rsg;
use vectorflow_sgs::scalar::Double;
use vectorflow_sgs::spatial::{aabb_overlaps, Cell, SpatialIndex};
use vectorflow_sgs::synth::generate;
use vectorflow_sgs::table::IdMap;

fn d(x: f64) -> Double {
    Double::from_bits(x.to_bits())
}

fn f(x: Double) -> f64 {
    f64::from_bits(x.bits)
}

fn d3(p: [f64; 3]) -> [Double; 3] {
    [d(p[0]), d(p[1]), d(p[2])]
}

fn f3(p: [Double; 3]) -> [f64; 3] {
    [f(p[0]), f(p[1]), f(p[2])]
}

fn text_of(v: &Value, key: &str) -> String {
    v.get(key).and_then(Value::as_str).unwrap_or("").to_string()
}

fn opt_text_of(v: &Value, key: &str) -> Option<String> {
    v.get(key).and_then(Value::as_str).map(str::to_string)
}

fn numbers<const N: usize>(v: &Value) -> [Double; N] {
    let mut out = [d(0.0); N];
    for (slot, x) in out.iter_mut().zip(v.as_array().unwrap()) {
        *slot = d(x.as_f64().unwrap());
    }
    out
}

fn vf_value(v: &Value) -> VfValue {
    match v {
        Value::String(s) => VfValue::Text(s.clone()),
        Value::Array(items) => VfValue::List(
            items
                .iter()
                .map(|i| match i {
                    Value::String(s) => VfItem::Text(s.clone()),
                    other => VfItem::Other(other.to_string()),
                })
                .collect(),
        ),
        other => VfValue::Other(other.to_string()),
    }
}

fn record(v: &Value) -> PrimRecord {
    let mut vf = TextMap::new();
    if let Some(fields) = v.get("vf").and_then(Value::as_object) {
        for (k, x) in fields {
            vf.insert(k.clone(), vf_value(x));
        }
    }
    let list = |key: &str| v.get(key).and_then(Value::as_array).cloned().unwrap_or_default();
    PrimRecord {
        prim_path: v.get("primPath").unwrap().as_str().unwrap().to_string(),
        kind: opt_text_of(v, "kind"),
        parent: opt_text_of(v, "parent"),
        transform: v.get("transform").map(|t| TransformRecord {
            translate: t.get("translate").map(numbers),
            matrix: t.get("matrix").map(numbers),
        }),
        extents_hint: v
            .get("extentsHint")
            .map(|e| Aabb { min: numbers(&e[0]), max: numbers(&e[1]) }),
        vf,
        tags: list("tags").iter().map(|t| t.as_str().unwrap().to_string()).collect(),
        geom_ref: v.get("geomRef").map(|g| GeomRefRecord {
            payload_uri: text_of(g, "payloadUri"),
            prim_path: text_of(g, "primPath"),
            content_hash: text_of(g, "contentHash"),
        }),
        bindings: list("bindings")
            .iter()
            .map(|b| TelemetryBinding {
                attribute: text_of(b, "attribute"),
                source_id: text_of(b, "sourceId"),
                query: text_of(b, "query"),
                unit: text_of(b, "unit"),
                ttl_ms: d(b.get("ttlMs").and_then(Value::as_f64).unwrap_or(0.0)),
                priority: text_of(b, "priority"),
                quality_policy: text_of(b, "qualityPolicy"),
            })
            .collect(),
    }
}

fn local_extents(rec: &PrimRecord) -> Aabb {
    let extents = rec.extents_hint.unwrap_or(Aabb::zero());
    let o = f3(rec.transform_default().translation());
    let (min, max) = (f3(extents.min), f3(extents.max));
    Aabb {
        min: d3([min[0] - o[0], min[1] - o[1], min[2] - o[2]]),
        max: d3([max[0] - o[0], max[1] - o[1], max[2] - o[2]]),
    }
}

fn build_from_ndjson(text: &str) -> Lsg {
    let mut entities = Vec::new();
    for line in text.lines() {
        if let Some(json) = record_text(line) {
            let rec = record(&serde_json::from_str(&json).unwrap());
            let local = local_extents(&rec);
            entities.push(rec.into_entity(local));
        }
    }
    build(entities)
}

const CELL_SIZE: f64 = 8.0;

fn centroid(a: &Aabb) -> [f64; 3] {
    let (min, max) = (f3(a.min), f3(a.max));
    [(min[0] + max[0]) * 0.5, (min[1] + max[1]) * 0.5, (min[2] + max[2]) * 0.5]
}

fn cell_of(p: [f64; 3]) -> Cell {
    Cell {
        x: (p[0] / CELL_SIZE).floor() as i64,
        y: (p[1] / CELL_SIZE).floor() as i64,
        z: (p[2] / CELL_SIZE).floor() as i64,
    }
}

fn index(lsg: &Lsg) -> SpatialIndex {
    let mut idx = SpatialIndex::new();
    for e in lsg.entities() {
        idx.insert(cell_of(centroid(&e.extents)), e.id);
    }
    idx
}

fn candidates_for_sphere(idx: &SpatialIndex, c: [f64; 3], radius: f64) -> Vec<EntityId> {
    let r = radius.max(0.0);
    idx.candidates_in_cells(
        cell_of([c[0] - r, c[1] - r, c[2] - r]),
        cell_of([c[0] + r, c[1] + r, c[2] + r]),
    )
}

fn point_in_sphere(p: [f64; 3], center: [f64; 3], radius: f64) -> bool {
    let v = [p[0] - center[0], p[1] - center[1], p[2] - center[2]];
    v[0] * v[0] + v[1] * v[1] + v[2] * v[2] <= radius * radius
}

fn region_hits(region: &Region, lsg: &Lsg, idx: &SpatialIndex) -> Vec<Hit> {
    let (center, ids) = match region {
        Region::Sphere { center, radius } => {
            (f3(*center), candidates_for_sphere(idx, f3(*center), f(*radius)))
        }
        Region::Aabb { min, max } => (
            centroid(&Aabb { min: *min, max: *max }),
            idx.candidates_in_cells(cell_of(f3(*min)), cell_of(f3(*max))),
        ),
        Region::Frustum(fr) => (
            centroid(&fr.bounds),
            idx.candidates_in_cells(cell_of(f3(fr.bounds.min)), cell_of(f3(fr.bounds.max))),
        ),
    };
    let mut hits = Vec::new();
    for id in ids {
        let e = lsg.get(id).unwrap();
        let c = centroid(&e.extents);
        let inside = match region {
            Region::Sphere { center, radius } => point_in_sphere(c, f3(*center), f(*radius)),
            Region::Aabb { min, max } => aabb_overlaps(&e.extents, *min, *max),
            Region::Frustum(_) => true,
        };
        if inside {
            let dist = (c[0] - center[0]).powi(2)
                + (c[1] - center[1]).powi(2)
                + (c[2] - center[2]).powi(2);
            hits.push(Hit { distance: d(dist), id });
        }
    }
    hits
}

fn all_hits(im: &InterestManager, lsg: &Lsg, idx: &SpatialIndex) -> IdMap<Vec<Hit>> {
    let mut hits = IdMap::new();
    for id in im.ids() {
        if let Some(region) = &im.get(id).unwrap().region {
            hits.insert(id, region_hits(region, lsg, idx));
        }
    }
    hits
}

fn evaluate(im: &mut InterestManager, lsg: &Lsg, idx: &SpatialIndex) -> Transitions {
    let hits = all_hits(im, lsg, idx);
    im.evaluate(lsg, &hits)
}

fn sphere(center: [f64; 3], radius: f64) -> Region {
    Region::Sphere { center: d3(center), radius: d(radius) }
}

fn ent(path: &str, tag: &str, center: [f64; 3], tags: &[&str]) -> Entity {
    let mut vf = TextMap::new();
    vf.insert("assetTag".to_string(), VfValue::Text(tag.to_string()));
    Entity {
        id: EntityId::from_prim_path(path),
        prim_path: path.to_string(),
        parent: None,
        children: vec![],
        kind: Some("component".to_string()),
        tags: tags.iter().map(|s| s.to_string()).collect(),
        vf,
        transform_default: Transform::from_translation(d3(center)),
        extents: Aabb {
            min: d3([center[0] - 0.5, center[1] - 0.5, center[2] - 0.5]),
            max: d3([center[0] + 0.5, center[1] + 0.5, center[2] + 0.5]),
        },
        local_extents: Aabb { min: d3([-0.5; 3]), max: d3([0.5; 3]) },
        geom_ref: None,
        bindings: vec![],
    }
}

fn scene() -> (Lsg, SpatialIndex) {
    let mut lsg = Lsg::new();
    lsg.insert(ent("/e0", "A", [0.0, 0.0, 0.0], &["pump"]));
    lsg.insert(ent("/e1", "B", [4.0, 0.0, 0.0], &["pump"]));
    lsg.insert(ent("/e2", "C", [100.0, 0.0, 0.0], &["tank"]));
    lsg.link_hierarchy();
    let idx = index(&lsg);
    (lsg, idx)
}

fn id(path: &str) -> EntityId {
    EntityId::from_prim_path(path)
}

fn activated(t: &Transitions) -> BTreeSet<EntityId> {
    t.activated.iter().map(|(_, e)| *e).collect()
}

// Spatial index.

#[test]
fn sphere_broad_phase_finds_near_and_skips_far() {
    let mut lsg = Lsg::new();
    for (i, p) in [[0.0, 0.0, 0.0], [4.0, 0.0, 0.0], [100.0, 0.0, 0.0]].iter().enumerate() {
        lsg.insert(ent(&format!("/e{i}"), "", *p, &[]));
    }
    lsg.link_hierarchy();
    let idx = index(&lsg);
    let cands = candidates_for_sphere(&idx, [0.0, 0.0, 0.0], 5.0);
    // The far entity at x=100 must not be a candidate.
    assert!(!cands.contains(&id("/e2")));
    assert!(cands.contains(&id("/e0")));
}

#[test]
fn precise_sphere_and_aabb() {
    assert!(point_in_sphere([1.0, 0.0, 0.0], [0.0, 0.0, 0.0], 2.0));
    assert!(!point_in_sphere([3.0, 0.0, 0.0], [0.0, 0.0, 0.0], 2.0));
    let a = Aabb { min: d3([0.0; 3]), max: d3([1.0; 3]) };
    assert!(aabb_overlaps(&a, d3([0.5, 0.5, 0.5]), d3([2.0, 2.0, 2.0])));
    assert!(!aabb_overlaps(&a, d3([2.0, 2.0, 2.0]), d3([3.0, 3.0, 3.0])));
    // Faces that touch overlap, and nothing overlaps what is no number.
    assert!(aabb_overlaps(&a, d3([1.0; 3]), d3([2.0; 3])));
    assert!(!aabb_overlaps(&a, d3([f64::NAN, 0.0, 0.0]), d3([2.0; 3])));
}

#[test]
fn candidates_come_cell_by_cell() {
    let mut idx = SpatialIndex::new();
    let at = |x: i64, y: i64, z: i64| Cell { x, y, z };
    idx.insert(at(1, 0, 0), EntityId(5));
    idx.insert(at(0, 0, 1), EntityId(4));
    idx.insert(at(0, 0, 0), EntityId(3));
    idx.insert(at(0, 0, 0), EntityId(2));
    idx.insert(at(-1, 0, 0), EntityId(1));
    let found = |lo: Cell, hi: Cell| -> Vec<u64> {
        idx.candidates_in_cells(lo, hi).iter().map(|e| e.0).collect()
    };
    assert_eq!(found(at(-1, -1, -1), at(1, 1, 1)), vec![1, 3, 2, 4, 5]);
    assert_eq!(found(at(0, 0, 0), at(0, 0, 0)), vec![3, 2]);
    assert_eq!(found(at(1, 0, 0), at(0, 0, 0)), Vec::<u64>::new());
}

// Interest.

#[test]
fn aoi_activates_only_nearby() {
    let (lsg, idx) = scene();
    let mut im = InterestManager::new();
    im.upsert(Subscription::spatial(1, sphere([0.0, 0.0, 0.0], 6.0), 100)).unwrap();
    let active = activated(&evaluate(&mut im, &lsg, &idx));
    assert!(active.contains(&id("/e0")));
    assert!(active.contains(&id("/e1")));
    assert!(!active.contains(&id("/e2")));
}

#[test]
fn selection_retained_outside_region() {
    let (lsg, idx) = scene();
    let mut im = InterestManager::new();
    let mut sub = Subscription::spatial(1, sphere([0.0, 0.0, 0.0], 1.0), 100);
    // Select the far entity explicitly; it must be active despite the AOI.
    sub.entity_ids = vec![id("/e2")];
    im.upsert(sub).unwrap();
    let active = activated(&evaluate(&mut im, &lsg, &idx));
    assert!(active.contains(&id("/e2")));
}

#[test]
fn budget_caps_to_nearest() {
    let (lsg, idx) = scene();
    let mut im = InterestManager::new();
    // Only one slot.
    im.upsert(Subscription::spatial(1, sphere([0.0, 0.0, 0.0], 10.0), 1)).unwrap();
    let t = evaluate(&mut im, &lsg, &idx);
    assert_eq!(t.activated.len(), 1);
    // Nearest to center (0,0,0) is /e0.
    assert_eq!(t.activated[0].1, id("/e0"));
}

#[test]
fn the_budget_holds_for_the_selection_too() {
    let (lsg, idx) = scene();
    let mut im = InterestManager::new();
    let mut sub = Subscription::spatial(1, sphere([0.0, 0.0, 0.0], 10.0), 2);
    sub.entity_ids = vec![id("/e2"), id("/nowhere"), id("/e2")];
    im.upsert(sub).unwrap();
    // The selection comes first, and the nearest hit takes the room that is left.
    let active = activated(&evaluate(&mut im, &lsg, &idx));
    assert_eq!(active, BTreeSet::from([id("/e2"), id("/e0")]));
    let mut sub = Subscription::spatial(1, sphere([0.0, 0.0, 0.0], 10.0), 2);
    sub.entity_ids = vec![id("/e2"), id("/e1"), id("/e0")];
    im.upsert(sub).unwrap();
    let t = evaluate(&mut im, &lsg, &idx);
    assert_eq!(activated(&t), BTreeSet::from([id("/e1")]));
    assert_eq!(im.active_count(1), 2);
    // Without an area, too.
    let mut sub = Subscription::spatial(2, sphere([0.0; 3], 1.0), 1);
    sub.region = None;
    sub.entity_ids = vec![id("/e1"), id("/e0")];
    im.upsert(sub).unwrap();
    evaluate(&mut im, &lsg, &idx);
    assert_eq!(im.active_count(2), 1);
}

#[test]
fn tags_filter_narrows_hits() {
    let (lsg, idx) = scene();
    let mut im = InterestManager::new();
    let mut sub = Subscription::spatial(1, sphere([0.0, 0.0, 0.0], 10.0), 100);
    sub.tags_filter = vec!["tank".to_string()];
    im.upsert(sub).unwrap();
    let t = evaluate(&mut im, &lsg, &idx);
    // Only tank-tagged entities within range; e0/e1 are pumps, e2 is far.
    assert!(t.activated.is_empty());
}

#[test]
fn observer_cannot_request_full_interaction() {
    let mut im = InterestManager::new();
    let mut sub = Subscription::spatial(1, sphere([0.0; 3], 1.0), 10);
    sub.viewer_profile = Some(ViewerProfile::Observer);
    sub.interaction = Interaction::Full;
    assert!(im.upsert(sub).is_err());
    assert_eq!(im.subscription_count(), 0);
    assert!(ViewerProfile::Operator.allows(Interaction::Full));
    assert!(ViewerProfile::Engineer.allows(Interaction::Limited));
    assert!(!ViewerProfile::Observer.allows(Interaction::Limited));
    assert!(ViewerProfile::Observer.allows(Interaction::ReadOnly));
}

#[test]
fn moving_region_emits_deltas() {
    let (lsg, idx) = scene();
    let mut im = InterestManager::new();
    im.upsert(Subscription::spatial(1, sphere([0.0, 0.0, 0.0], 2.0), 100)).unwrap();
    let _ = evaluate(&mut im, &lsg, &idx); // e0 active
    // Move AOI to e1.
    im.set_region(1, sphere([4.0, 0.0, 0.0], 2.0));
    let t = evaluate(&mut im, &lsg, &idx);
    let deact: BTreeSet<EntityId> = t.deactivated.iter().map(|(_, e)| *e).collect();
    assert!(activated(&t).contains(&id("/e1")));
    assert!(deact.contains(&id("/e0")));
    // Evaluating again over the same scene changes nothing.
    assert!(evaluate(&mut im, &lsg, &idx).is_empty());
    // A subscription that goes takes its entities along.
    im.remove(1);
    let t = evaluate(&mut im, &lsg, &idx);
    assert_eq!(t.deactivated, vec![(1, id("/e1"))]);
    assert_eq!(im.active_count(1), 0);
}

#[test]
fn hits_are_sorted_by_distance_then_id() {
    let hit = |x: f64, k: u64| Hit { distance: d(x), id: EntityId(k) };
    let hits = vec![hit(2.0, 1), hit(0.0, 9), hit(-0.0, 4), hit(1.0, 3), hit(1.0, 2)];
    let order: Vec<u64> = sort_hits(&hits).iter().map(|h| h.id.0).collect();
    assert_eq!(order, vec![4, 9, 2, 3, 1]);
}

// Alerts.

fn alert_lsg() -> Lsg {
    let lines = [
        r#"{"primPath":"/W/Pump_01","kind":"component","transform":{"translate":[0,0,0]},"extentsHint":[[-1,-1,-1],[1,1,1]],"vf":{"assetTag":"PUMP-01"}}"#,
        r#"{"primPath":"/W/Pump_02","kind":"component","transform":{"translate":[100,0,0]},"extentsHint":[[99,-1,-1],[101,1,1]],"vf":{"assetTag":"PUMP-02"}}"#,
    ];
    build_from_ndjson(&lines.join("\n"))
}

#[test]
fn alert_force_activates_regardless_of_aoi() {
    let lsg = alert_lsg();
    let idx = index(&lsg);
    let mut im = InterestManager::new();
    // No spatial subscription at all: only the alert drives activation.
    let alerts = [AlertEvent::new("PUMP-02", "high_vibration")];
    let ids = force_subscription(&alerts, &lsg, &mut im, 900, 16);
    assert_eq!(ids, vec![id("/W/Pump_02")]);

    let t = evaluate(&mut im, &lsg, &idx);
    let active: Vec<EntityId> = t.activated.iter().map(|(_, e)| *e).collect();
    assert!(active.contains(&id("/W/Pump_02")));
    assert_eq!(im.get(900).unwrap().kind, SubscriberKind::AlertRule);
}

#[test]
fn unresolved_selectors_create_no_subscription() {
    let lsg = alert_lsg();
    let mut im = InterestManager::new();
    let alerts = [AlertEvent::new("NOPE-99", "x")];
    let ids = force_subscription(&alerts, &lsg, &mut im, 900, 16);
    assert!(ids.is_empty());
    assert_eq!(im.subscription_count(), 0);
}

#[test]
fn queued_alerts_are_drained_once() {
    let lsg = alert_lsg();
    let mut source = StubAlertSource::new();
    source.push("PUMP-01", "a");
    source.push("PUMP-01", "b");
    source.push("PUMP-02", "c");
    let events = source.drain();
    assert_eq!(events.len(), 3);
    assert_eq!(events[1].reason, "b");
    assert!(source.drain().is_empty());
    let mut im = InterestManager::new();
    // Two alerts on one entity select it once.
    let ids = force_subscription(&events, &lsg, &mut im, 7, 1);
    assert_eq!(ids, vec![id("/W/Pump_01"), id("/W/Pump_02")]);
}

// Payloads.

fn geom(uri: &str, hash: &str) -> GeomRef {
    GeomRef {
        payload_uri: uri.to_string(),
        prim_path: "/Component".to_string(),
        content_hash: hash.to_string(),
        lod_ladder: vec![],
    }
}

fn cache() -> PayloadCache<StubPayloadLoader> {
    PayloadCache::new(StubPayloadLoader)
}

#[test]
fn cache_dedups_by_content_hash() {
    let mut cache = cache();
    let g = geom("./components/pump.usda", "abc");
    let (k1, p1) = cache.acquire(&g).unwrap();
    let (k2, p2) = cache.acquire(&g).unwrap();
    assert_eq!(k1, k2);
    // Both hold the one payload.
    assert!(std::sync::Arc::ptr_eq(&p1, &p2));
    assert_eq!(p1.payload_uri, "./components/pump.usda");
    // Two acquires, one distinct payload, one loader call.
    assert_eq!(cache.loaded_count(), 1);
    assert_eq!(cache.load_calls(), 1);

    cache.release(&k1);
    assert_eq!(cache.loaded_count(), 1); // still one ref
    cache.release(&k2);
    assert_eq!(cache.loaded_count(), 0); // unloaded
}

#[test]
fn empty_hash_falls_back_to_uri() {
    let mut cache = cache();
    let a = geom("./components/tank.usda", "");
    let b = geom("./components/tank.usda", "");
    let (ka, _) = cache.acquire(&a).unwrap();
    let (_kb, _) = cache.acquire(&b).unwrap();
    assert_eq!(ka, "./components/tank.usda");
    assert_eq!(cache.load_calls(), 1); // same URI -> cache hit
}

/// Opens nothing.
struct BrokenLoader;

impl PayloadLoader for BrokenLoader {
    fn load(&self, geom: &GeomRef) -> Result<HydratedPayload, LoadError> {
        Err(LoadError { message: format!("no {}", geom.payload_uri) })
    }
}

#[test]
fn a_failing_loader_stops_a_step() {
    let lsg = line_world(2, 1.0, "h1");
    let idx = index(&lsg);
    let mut flow = Pipeline::new(1, BrokenLoader);
    flow.interest.upsert(Subscription::spatial(1, sphere([0.0; 3], 9.0), 9)).unwrap();
    let hits = all_hits(&flow.interest, &lsg, &idx);
    let e = flow.step(&lsg, &hits, 0).unwrap_err();
    assert_eq!(e.message, "no ./c.usda");
    assert!(flow.rsg.is_empty());
    assert_eq!(flow.cache.loaded_count(), 0);
}

// Working set.

fn page_ent(path: &str, with_payload: bool) -> Entity {
    let mut e = ent(path, "", [0.0; 3], &[]);
    if with_payload {
        e.geom_ref = Some(GeomRef {
            payload_uri: "./components/pump.usda".to_string(),
            prim_path: "/Pump".to_string(),
            content_hash: "hash-pump".to_string(),
            lod_ladder: vec![],
        });
    }
    e
}

fn lsg2() -> Lsg {
    let mut lsg = Lsg::new();
    lsg.insert(page_ent("/a", true));
    lsg.insert(page_ent("/b", true));
    lsg.link_hierarchy();
    lsg
}

fn trans(on: &[(SubscriptionId, &str)], off: &[(SubscriptionId, &str)]) -> Transitions {
    Transitions {
        activated: on.iter().map(|(s, p)| (*s, id(p))).collect(),
        deactivated: off.iter().map(|(s, p)| (*s, id(p))).collect(),
    }
}

#[test]
fn shared_page_refcounts_across_subscribers() {
    let lsg = lsg2();
    let mut cache = cache();
    let mut rsg = Rsg::new(2);
    let a = id("/a");

    // Two subscribers activate the same entity.
    rsg.apply(&trans(&[(1, "/a")], &[]), &lsg, &mut cache, 0).unwrap();
    rsg.apply(&trans(&[(2, "/a")], &[]), &lsg, &mut cache, 0).unwrap();
    assert_eq!(rsg.len(), 1);
    assert_eq!(rsg.get(a).unwrap().subscribers.len(), 2);
    assert_eq!(cache.loaded_count(), 1);
    assert_eq!(cache.load_calls(), 1); // hydrated once, shared

    // Sub 1 leaves — page stays (sub 2 still references it), no eviction.
    rsg.apply(&trans(&[], &[(1, "/a")]), &lsg, &mut cache, 1).unwrap();
    assert_eq!(rsg.pending_eviction_count(), 0);
    assert_eq!(rsg.len(), 1);
}

#[test]
fn eviction_waits_for_grace_then_unloads_payload() {
    let lsg = lsg2();
    let mut cache = cache();
    let mut rsg = Rsg::new(3);
    let a = id("/a");

    rsg.apply(&trans(&[(1, "/a")], &[]), &lsg, &mut cache, 0).unwrap();
    rsg.apply(&trans(&[], &[(1, "/a")]), &lsg, &mut cache, 0).unwrap();
    assert_eq!(rsg.pending_eviction_count(), 1);

    // Before grace expires: nothing evicted.
    assert!(rsg.evict_expired(2, &mut cache).is_empty());
    assert_eq!(rsg.len(), 1);
    assert_eq!(cache.loaded_count(), 1);

    // At/after grace: evicted and payload unloaded.
    let evicted = rsg.evict_expired(3, &mut cache);
    assert_eq!(evicted, vec![a]);
    assert_eq!(rsg.len(), 0);
    assert_eq!(cache.loaded_count(), 0);
}

#[test]
fn reacquire_before_grace_cancels_eviction() {
    let lsg = lsg2();
    let mut cache = cache();
    let mut rsg = Rsg::new(5);
    let a = id("/a");

    rsg.apply(&trans(&[(1, "/a")], &[]), &lsg, &mut cache, 0).unwrap();
    rsg.apply(&trans(&[], &[(1, "/a")]), &lsg, &mut cache, 1).unwrap();
    assert_eq!(rsg.pending_eviction_count(), 1);

    // Re-activated (by any sub) before grace: eviction cancelled.
    rsg.apply(&trans(&[(2, "/a")], &[]), &lsg, &mut cache, 2).unwrap();
    assert_eq!(rsg.pending_eviction_count(), 0);
    assert!(rsg.evict_expired(100, &mut cache).is_empty());
    assert_eq!(rsg.len(), 1);
    assert!(rsg.get(a).unwrap().subscribers.contains(2));
}

#[test]
fn per_subscriber_diffs_track_own_view() {
    let lsg = lsg2();
    let mut cache = cache();
    let mut rsg = Rsg::new(2);

    rsg.apply(&trans(&[(1, "/a"), (2, "/b")], &[]), &lsg, &mut cache, 0).unwrap();
    let d1 = rsg.take_diff(1);
    let d2 = rsg.take_diff(2);
    assert_eq!(d1.upserts, vec![id("/a")]);
    assert_eq!(d2.upserts, vec![id("/b")]);
    // Draining empties the cursor.
    assert!(rsg.take_diff(1).is_empty());
    rsg.apply(&trans(&[(3, "/a")], &[]), &lsg, &mut cache, 0).unwrap();
    rsg.clear_diffs();
    assert!(rsg.take_diff(3).is_empty());
    assert_eq!(rsg.len(), 2);
}

#[test]
fn the_later_change_of_a_diff_wins() {
    let lsg = lsg2();
    let mut cache = cache();
    let mut rsg = Rsg::new(2);
    rsg.apply(&trans(&[(1, "/a")], &[]), &lsg, &mut cache, 0).unwrap();
    rsg.take_diff(1);
    // Away and back again: the view has the entity, and so has the diff.
    rsg.apply(&trans(&[], &[(1, "/a")]), &lsg, &mut cache, 1).unwrap();
    rsg.apply(&trans(&[(1, "/a")], &[]), &lsg, &mut cache, 2).unwrap();
    let d = rsg.take_diff(1);
    assert_eq!((d.upserts, d.removes), (vec![id("/a")], vec![]));
    // In and out again.
    rsg.apply(&trans(&[(1, "/b")], &[]), &lsg, &mut cache, 3).unwrap();
    rsg.apply(&trans(&[], &[(1, "/b")]), &lsg, &mut cache, 4).unwrap();
    let d = rsg.take_diff(1);
    assert_eq!((d.upserts, d.removes), (vec![], vec![id("/b")]));
}

#[test]
fn pages_hold_the_payload_that_is_loaded() {
    let lsg = lsg2();
    let mut cache = cache();
    let mut rsg = Rsg::new(1);
    rsg.apply(&trans(&[(1, "/a"), (1, "/b")], &[]), &lsg, &mut cache, 0).unwrap();
    let (key, loaded) = cache.acquire(lsg.get(id("/a")).unwrap().geom_ref.as_ref().unwrap()).unwrap();
    for path in ["/a", "/b"] {
        let page = rsg.get(id(path)).unwrap();
        assert_eq!(page.payload_key.as_deref(), Some(key.as_str()));
        assert!(std::sync::Arc::ptr_eq(page.hydrated.as_ref().unwrap(), &loaded));
    }
    // One page goes, and the other keeps its payload.
    rsg.apply(&trans(&[], &[(1, "/a")]), &lsg, &mut cache, 0).unwrap();
    assert_eq!(rsg.evict_expired(9, &mut cache), vec![id("/a")]);
    rsg.clear_diffs();
    assert!(std::sync::Arc::ptr_eq(rsg.entities()[0].hydrated.as_ref().unwrap(), &loaded));
    assert_eq!(cache.load_calls(), 1);
}

#[test]
fn a_grace_beyond_the_end_of_time_saturates() {
    let lsg = lsg2();
    let mut cache = cache();
    let mut rsg = Rsg::new(u64::MAX);
    rsg.apply(&trans(&[(1, "/a")], &[(1, "/a")]), &lsg, &mut cache, 5).unwrap();
    assert!(rsg.evict_expired(u64::MAX - 1, &mut cache).is_empty());
    assert_eq!(rsg.evict_expired(u64::MAX, &mut cache), vec![id("/a")]);
}

#[test]
fn entities_outside_the_index_are_passed_over() {
    let lsg = lsg2();
    let mut cache = cache();
    let mut rsg = Rsg::new(1);
    rsg.apply(&trans(&[(1, "/nowhere")], &[]), &lsg, &mut cache, 0).unwrap();
    assert!(rsg.is_empty());
    assert!(rsg.take_diff(1).is_empty());
}

// The pipeline over a world.

/// A line of `n` payload-backed components spaced `spacing` apart along +x, all
/// with the same payload.
fn line_world(n: usize, spacing: f64, content_hash: &str) -> Lsg {
    let mut s = String::new();
    for i in 0..n {
        let x = i as f64 * spacing;
        let (lo, hi) = (x - 0.5, x + 0.5);
        s += &format!(
            r#"{{"primPath":"/W/e{i}","kind":"component","transform":{{"translate":[{x},0,0]}},"extentsHint":[[{lo},-0.5,-0.5],[{hi},0.5,0.5]],"vf":{{"assetTag":"E{i}"}},"geomRef":{{"payloadUri":"./c.usda","primPath":"/C","contentHash":"{content_hash}"}},"bindings":[]}}"#,
        );
        s.push('\n');
    }
    build_from_ndjson(&s)
}

#[test]
fn moving_aoi_keeps_rsg_and_payloads_bounded() {
    let n = 60;
    let spacing = 5.0;
    let lsg = line_world(n, spacing, "h1");
    let idx = index(&lsg);
    let start_rev = lsg.revision();

    let radius = 7.0;
    let budget = 100; // not binding; AOI itself is the limiter
    let grace = 2u64;
    let mut im = InterestManager::new();
    im.upsert(Subscription::spatial(1, sphere([0.0, 0.0, 0.0], radius), budget)).unwrap();
    let mut rsg = Rsg::new(grace);
    let mut c = cache();

    let mut max_rsg = 0usize;
    for step in 0..12u64 {
        let center = [step as f64 * 10.0, 0.0, 0.0];
        im.set_region(1, sphere(center, radius));
        let t = evaluate(&mut im, &lsg, &idx);
        rsg.apply(&t, &lsg, &mut c, step).unwrap();
        rsg.evict_expired(step, &mut c);

        // Budget respected, and the working set stays tiny vs the whole world.
        assert!(im.active_count(1) <= budget);
        assert!(c.loaded_count() <= 1, "only one distinct payload exists");
        max_rsg = max_rsg.max(rsg.len());
    }

    // A radius-7 sphere over 5-unit spacing touches only a handful of entities;
    // with a 2-tick grace the resident set stays far below the 60-entity world.
    assert!(max_rsg < 20, "|RSG| should stay bounded, got {max_rsg}");
    assert_eq!(lsg.revision(), start_rev, "interest must not mutate the LSG");
}

#[test]
fn budget_caps_active_to_nearest() {
    let lsg = line_world(60, 5.0, "h1");
    let idx = index(&lsg);
    let mut im = InterestManager::new();
    // A huge AOI covers everything; budget must clamp the active set.
    im.upsert(Subscription::spatial(1, sphere([150.0, 0.0, 0.0], 1000.0), 5)).unwrap();
    let mut rsg = Rsg::new(1);
    let mut c = cache();
    let t = evaluate(&mut im, &lsg, &idx);
    rsg.apply(&t, &lsg, &mut c, 0).unwrap();
    assert_eq!(im.active_count(1), 5);
    assert_eq!(rsg.len(), 5);
}

#[test]
fn selection_retained_after_aoi_moves_away() {
    let lsg = line_world(30, 5.0, "h1");
    let idx = index(&lsg);
    let sel = id("/W/e0"); // at x=0

    let mut sub = Subscription::spatial(1, sphere([0.0, 0.0, 0.0], 6.0), 100);
    sub.entity_ids = vec![sel];
    let mut im = InterestManager::new();
    im.upsert(sub).unwrap();
    let mut rsg = Rsg::new(1);
    let mut c = cache();

    // March the AOI far away from e0.
    for step in 0..10u64 {
        let center = [50.0 + step as f64 * 10.0, 0.0, 0.0];
        im.set_region(1, sphere(center, 6.0));
        let t = evaluate(&mut im, &lsg, &idx);
        rsg.apply(&t, &lsg, &mut c, step).unwrap();
        rsg.evict_expired(step, &mut c);
    }

    // e0 is nowhere near the AOI but the explicit selection keeps it resident.
    assert!(rsg.contains(sel), "selected entity must survive the AOI leaving");
    assert!(rsg.get(sel).unwrap().subscribers.contains(1));
}

#[test]
fn eviction_waits_for_grace_and_unloads_payload() {
    let lsg = line_world(4, 5.0, "h1");
    let idx = index(&lsg);
    let grace = 3u64;
    let mut im = InterestManager::new();
    im.upsert(Subscription::spatial(1, sphere([0.0, 0.0, 0.0], 2.0), 100)).unwrap();
    let mut rsg = Rsg::new(grace);
    let mut c = cache();

    // t=0: activate e0.
    let t = evaluate(&mut im, &lsg, &idx);
    rsg.apply(&t, &lsg, &mut c, 0).unwrap();
    assert_eq!(rsg.len(), 1);
    assert_eq!(c.loaded_count(), 1);

    // t=1: move AOI away -> e0 deactivated, scheduled for eviction.
    im.set_region(1, sphere([1000.0, 0.0, 0.0], 2.0));
    let t = evaluate(&mut im, &lsg, &idx);
    rsg.apply(&t, &lsg, &mut c, 1).unwrap();
    assert_eq!(rsg.pending_eviction_count(), 1);

    // Before grace expires (deadline = 1 + 3 = 4): still resident + loaded.
    assert!(rsg.evict_expired(3, &mut c).is_empty());
    assert_eq!(rsg.len(), 1);
    assert_eq!(c.loaded_count(), 1);

    // At the deadline: evicted and payload unloaded.
    let evicted = rsg.evict_expired(4, &mut c);
    assert_eq!(evicted, vec![id("/W/e0")]);
    assert_eq!(rsg.len(), 0);
    assert_eq!(c.loaded_count(), 0);
}

#[test]
fn identical_payloads_hydrate_once() {
    // 40 entities within the AOI, all sharing one payload content hash.
    let lsg = line_world(40, 1.0, "shared-hash");
    let idx = index(&lsg);
    let mut im = InterestManager::new();
    im.upsert(Subscription::spatial(1, sphere([20.0, 0.0, 0.0], 1000.0), 1000)).unwrap();
    let mut rsg = Rsg::new(1);
    let mut c = cache();
    let t = evaluate(&mut im, &lsg, &idx);
    rsg.apply(&t, &lsg, &mut c, 0).unwrap();

    assert_eq!(rsg.len(), 40, "all 40 within the AOI");
    assert_eq!(c.loaded_count(), 1, "one distinct payload open");
    assert_eq!(c.load_calls(), 1, "hydrated once despite 40 instances");
}

#[test]
fn two_subscribers_share_one_page() {
    let lsg = line_world(10, 5.0, "h1");
    let idx = index(&lsg);
    let e0 = id("/W/e0");
    let mut im = InterestManager::new();
    im.upsert(Subscription::spatial(1, sphere([0.0; 3], 2.0), 100)).unwrap();
    im.upsert(Subscription::spatial(2, sphere([0.0; 3], 2.0), 100)).unwrap();
    let mut rsg = Rsg::new(1);
    let mut c = cache();
    let t = evaluate(&mut im, &lsg, &idx);
    rsg.apply(&t, &lsg, &mut c, 0).unwrap();

    // One shared page, referenced by both subscriptions.
    assert_eq!(rsg.get(e0).unwrap().subscribers.len(), 2);
    assert_eq!(c.load_calls(), 1);

    // Draining per-subscriber diffs: each sees e0 enter its own view.
    assert!(rsg.take_diff(1).upserts.contains(&e0));
    assert!(rsg.take_diff(2).upserts.contains(&e0));
}

#[test]
fn broad_phase_narrows_candidates_at_scale() {
    // Synthetic 200k-entity world; a tight AOI must yield candidates far below
    // the total.
    let count = 200_000u64;
    let side = (count as f64).cbrt().ceil() as u64;
    let lsg = generate(count, side);
    let idx = index(&lsg);
    let cands = candidates_for_sphere(&idx, [25.0, 25.0, 25.0], 10.0);
    assert!(
        cands.len() < 2_000,
        "broad-phase should narrow 200k -> a small candidate set, got {}",
        cands.len()
    );
    assert!(!cands.is_empty(), "AOI should find some candidates");
}

#[test]
fn each_step_mirrors_what_is_active() {
    let lsg = line_world(30, 5.0, "h1");
    let idx = index(&lsg);
    let mut flow = Pipeline::new(1, StubPayloadLoader);
    flow.interest.upsert(Subscription::spatial(1, sphere([0.0; 3], 12.0), 3)).unwrap();
    flow.interest.upsert(Subscription::spatial(2, sphere([60.0, 0.0, 0.0], 7.0), 9)).unwrap();
    for step in 0..8u64 {
        flow.interest.set_region(1, sphere([step as f64 * 20.0, 0.0, 0.0], 12.0));
        let hits = all_hits(&flow.interest, &lsg, &idx);
        let passage = flow.step(&lsg, &hits, step).unwrap();
        for sub in [1, 2] {
            let shown =
                flow.rsg.entities().iter().filter(|p| p.subscribers.contains(sub)).count();
            assert_eq!(shown, flow.interest.active_count(sub));
        }
        assert!(flow.interest.active_count(1) <= 3);
        // One payload serves every page, and is open while there is one.
        assert_eq!(flow.cache.loaded_count(), if flow.rsg.is_empty() { 0 } else { 1 });
        assert!(passage.evicted.len() <= 3);
    }
}
