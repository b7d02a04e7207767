//! The logical scene, the overlay and what is reported of them.

use std::hash::Hasher;

use serde_json::Value;

use vectorflow_sgs::dict::TextMap;
use vectorflow_sgs::import::{
    build, choose_python, record_text, GeomRefRecord, PrimRecord, TransformRecord,
};
use vectorflow_sgs::lsg::{
    Aabb, Anchor, AnchorId, Edge, EdgeId, Entity, EntityId, Lsg, TelemetryBinding, Transform,
    VfItem, VfValue,
};
use vectorflow_sgs::opinion::{Opinion, StoredOpinion};
use vectorflow_sgs::overlay::TwinOverlay;
use vectorflow_sgs::report::{
    binding_summary, bound_attributes, kind_counts, resolve_selection, resolve_target, split_list,
    split_triple, tagged_assets, TargetError,
};
use vectorflow_sgs::scalar::Double;
use vectorflow_sgs::synth::{format_bytes, generate, synth_entity};

fn d(x: f64) -> Double {
    Double::from_bits(x.to_bits())
}

fn f(x: Double) -> f64 {
    f64::from_bits(x.bits)
}

fn d3(p: [f64; 3]) -> [Double; 3] {
    [d(p[0]), d(p[1]), d(p[2])]
}

fn f3(p: [Double; 3]) -> [f64; 3] {
    [f(p[0]), f(p[1]), f(p[2])]
}

fn text_of(v: &Value, key: &str) -> String {
    v.get(key).and_then(Value::as_str).unwrap_or("").to_string()
}

fn opt_text_of(v: &Value, key: &str) -> Option<String> {
    v.get(key).and_then(Value::as_str).map(str::to_string)
}

fn numbers<const N: usize>(v: &Value) -> [Double; N] {
    let mut out = [d(0.0); N];
    for (slot, x) in out.iter_mut().zip(v.as_array().unwrap()) {
        *slot = d(x.as_f64().unwrap());
    }
    out
}

fn vf_value(v: &Value) -> VfValue {
    match v {
        Value::String(s) => VfValue::Text(s.clone()),
        Value::Array(items) => VfValue::List(
            items
                .iter()
                .map(|i| match i {
                    Value::String(s) => VfItem::Text(s.clone()),
                    other => VfItem::Other(other.to_string()),
                })
                .collect(),
        ),
        other => VfValue::Other(other.to_string()),
    }
}

fn record(v: &Value) -> PrimRecord {
    let mut vf = TextMap::new();
    if let Some(fields) = v.get("vf").and_then(Value::as_object) {
        for (k, x) in fields {
            vf.insert(k.clone(), vf_value(x));
        }
    }
    let list = |key: &str| v.get(key).and_then(Value::as_array).cloned().unwrap_or_default();
    PrimRecord {
        prim_path: v.get("primPath").unwrap().as_str().unwrap().to_string(),
        kind: opt_text_of(v, "kind"),
        parent: opt_text_of(v, "parent"),
        transform: v.get("transform").map(|t| TransformRecord {
            translate: t.get("translate").map(numbers),
            matrix: t.get("matrix").map(numbers),
        }),
        extents_hint: v
            .get("extentsHint")
            .map(|e| Aabb { min: numbers(&e[0]), max: numbers(&e[1]) }),
        vf,
        tags: list("tags").iter().map(|t| t.as_str().unwrap().to_string()).collect(),
        geom_ref: v.get("geomRef").map(|g| GeomRefRecord {
            payload_uri: text_of(g, "payloadUri"),
            prim_path: text_of(g, "primPath"),
            content_hash: text_of(g, "contentHash"),
        }),
        bindings: list("bindings")
            .iter()
            .map(|b| TelemetryBinding {
                attribute: text_of(b, "attribute"),
                source_id: text_of(b, "sourceId"),
                query: text_of(b, "query"),
                unit: text_of(b, "unit"),
                ttl_ms: d(b.get("ttlMs").and_then(Value::as_f64).unwrap_or(0.0)),
                priority: text_of(b, "priority"),
                quality_policy: text_of(b, "qualityPolicy"),
            })
            .collect(),
    }
}

fn local_extents(rec: &PrimRecord) -> Aabb {
    let extents = rec.extents_hint.unwrap_or(Aabb::zero());
    let o = f3(rec.transform_default().translation());
    let (min, max) = (f3(extents.min), f3(extents.max));
    Aabb {
        min: d3([min[0] - o[0], min[1] - o[1], min[2] - o[2]]),
        max: d3([max[0] - o[0], max[1] - o[1], max[2] - o[2]]),
    }
}

fn build_from_ndjson(text: &str) -> Lsg {
    let mut entities = Vec::new();
    for line in text.lines() {
        if let Some(json) = record_text(line) {
            let rec = record(&serde_json::from_str(&json).unwrap());
            let local = local_extents(&rec);
            entities.push(rec.into_entity(local));
        }
    }
    build(entities)
}

/// A miniature facility whose payloads stay closed.
const FIXTURE_NDJSON: &str = r#"
{"primPath":"/PS","kind":"assembly","vf":{"class":"facility"}}
{"primPath":"/PS/Hall","kind":"group","parent":"/PS","vf":{"zone":"pump_hall"}}
{"primPath":"/PS/Hall/Pump_01","kind":"component","parent":"/PS/Hall","transform":{"translate":[0,0,0]},"extentsHint":[[-1.6,-0.7,-0.7],[0.9,0.7,0.6]],"vf":{"assetTag":"PUMP-01","tags":["duty"]},"geomRef":{"payloadUri":"./components/pump.usda","primPath":"/Pump","contentHash":"deadbeef"},"bindings":[{"attribute":"flow","sourceId":"victoriametrics","query":"pump_flow_gpm{asset=\"PUMP-01\"}","unit":"gpm","ttlMs":5000,"priority":"background","qualityPolicy":"stale_ok"}]}
{"primPath":"/PS/Hall/Pump_02","kind":"component","parent":"/PS/Hall","transform":{"translate":[0,3,0]},"vf":{"assetTag":"PUMP-02"},"geomRef":{"payloadUri":"./components/pump.usda","primPath":"/Pump","contentHash":"deadbeef"},"bindings":[{"attribute":"flow","sourceId":"victoriametrics","query":"pump_flow_gpm{asset=\"PUMP-02\"}"}]}
"#;

fn entity(path: &str, t: [f64; 3]) -> Entity {
    Entity {
        id: EntityId::from_prim_path(path),
        prim_path: path.to_string(),
        parent: None,
        children: vec![],
        kind: None,
        tags: vec![],
        vf: TextMap::new(),
        transform_default: Transform::from_translation(d3(t)),
        extents: Aabb::zero(),
        local_extents: Aabb::zero(),
        geom_ref: None,
        bindings: vec![],
    }
}

fn binding_of(attr: &str, query: &str) -> TelemetryBinding {
    TelemetryBinding {
        attribute: attr.to_string(),
        source_id: "victoriametrics".to_string(),
        query: query.to_string(),
        unit: String::new(),
        ttl_ms: d(5000.0),
        priority: "background".to_string(),
        quality_policy: "stale_ok".to_string(),
    }
}

#[test]
fn golden_fixture_projection() {
    let lsg = build_from_ndjson(FIXTURE_NDJSON);

    // Hierarchy: 1 assembly + 1 group + 2 components.
    assert_eq!(lsg.len(), 4);
    assert_eq!(lsg.payload_count(), 2);
    assert_eq!(lsg.entities_with_bindings(), 2);
    assert_eq!(lsg.binding_count(), 2);

    // Parent/child links established from the parent references.
    let hall = lsg.by_path("/PS/Hall").unwrap();
    assert_eq!(hall.children.len(), 2);
    assert_eq!(hall.parent, Some(EntityId::from_prim_path("/PS")));

    // Instance-level data indexed without opening payloads.
    let pump = lsg.by_asset_tag("PUMP-01").unwrap();
    assert_eq!(pump.kind.as_deref(), Some("component"));
    assert_eq!(f3(pump.transform_default.translation()), [0.0, 0.0, 0.0]);
    assert_eq!(pump.tags, vec!["duty".to_string()]);
    assert_eq!(f3(pump.extents.min), [-1.6, -0.7, -0.7]);
    let geom = pump.geom_ref.as_ref().unwrap();
    assert_eq!(geom.payload_uri, "./components/pump.usda");
    assert_eq!(geom.content_hash, "deadbeef");

    // Binding index resolves both pumps by the "flow" attribute.
    assert_eq!(lsg.entities_binding("flow").len(), 2);
}

#[test]
fn entity_id_matches_prim_path_hash() {
    let lsg = build_from_ndjson(FIXTURE_NDJSON);
    let pump = lsg.by_asset_tag("PUMP-01").unwrap();
    assert_eq!(pump.id, EntityId::from_prim_path("/PS/Hall/Pump_01"));
    // Selector resolution works by tag and by path to the same entity.
    assert_eq!(
        lsg.resolve_selector("PUMP-01").unwrap().id,
        lsg.resolve_selector("/PS/Hall/Pump_01").unwrap().id
    );
}

#[test]
fn pin_persists_across_overlay_reopen() {
    let id = EntityId::from_prim_path("/PS/Hall/Pump_01");
    let pinned = Transform::from_translation(d3([1.0, 2.0, 3.0]));

    // First run: write a pin, keep what is on record, drop the overlay.
    let (revision, pin) = {
        let mut ov = TwinOverlay::new();
        let rev = ov.pin(id, "/PS/Hall/Pump_01", pinned, Some("adam"), 5);
        assert_eq!(rev, 1);
        (ov.revision(), ov.get_pin(id).unwrap().clone())
    };

    // Second run: restore from the record; the pin survives and wins.
    let mut ov = TwinOverlay::restore(revision);
    ov.restore_pin(id, pin);
    let pin = ov.get_pin(id).expect("pin persisted");
    assert_eq!(f3(pin.transform.translation()), [1.0, 2.0, 3.0]);
    assert_eq!(pin.pinned_by.as_deref(), Some("adam"));
    assert_eq!(ov.pin_count(), 1);
    // Revision persisted too (monotonic across restarts).
    assert_eq!(ov.revision(), 1);
}

#[test]
fn pin_precedence_over_authored_default() {
    let lsg = build_from_ndjson(FIXTURE_NDJSON);
    let pump = lsg.by_asset_tag("PUMP-02").unwrap(); // authored translate [0,3,0]
    let mut ov = TwinOverlay::new();

    // No pin -> authored default.
    assert_eq!(f3(ov.resolved_transform(pump).translation()), [0.0, 3.0, 0.0]);

    // Pin -> override wins.
    let there = Transform::from_translation(d3([7.0, 7.0, 7.0]));
    ov.pin(pump.id, &pump.prim_path, there, None, 0);
    assert_eq!(f3(ov.resolved_transform(pump).translation()), [7.0, 7.0, 7.0]);
}

/// Equal paths give equal ids, and a longer path gives another one.
#[test]
fn entity_id_is_deterministic() {
    let pool: Vec<char> = "ABCxyz019_/".chars().collect();
    let mut seed: u64 = 7;
    for len in 1..41usize {
        for _ in 0..8 {
            let mut path = String::from("/");
            for _ in 0..len {
                seed = seed.wrapping_mul(6364136223846793005).wrapping_add(1442695040888963407);
                path.push(pool[(seed >> 33) as usize % pool.len()]);
            }
            let a = EntityId::from_prim_path(&path);
            assert_eq!(a, EntityId::from_prim_path(&path));
            assert_ne!(a, EntityId::from_prim_path(&format!("{path}/x")));
        }
    }
}

/// The overlay's revision grows with every pin and unpin.
#[test]
fn overlay_revision_is_monotonic() {
    for pattern in 0..256u32 {
        let mut ov = TwinOverlay::new();
        let id = EntityId::from_prim_path("/PS/Hall/Pump_01");
        let mut last = ov.revision();
        for bit in 0..8 {
            let rev = if pattern >> bit & 1 == 1 {
                ov.pin(id, "/PS/Hall/Pump_01", Transform::identity(), None, 0)
            } else {
                ov.unpin(id).0
            };
            assert!(rev > last);
            last = rev;
        }
        assert_eq!(ov.revision(), last);
    }
}

#[test]
fn pin_precedence_and_revision() {
    let mut ov = TwinOverlay::new();
    let e = entity("/Root/Pump_01", [0.0, 0.0, 0.0]);
    assert_eq!(ov.revision(), 0);

    // No pin -> resolves to authored default.
    assert_eq!(f3(ov.resolved_transform(&e).translation()), [0.0; 3]);

    let there = Transform::from_translation(d3([9.0, 8.0, 7.0]));
    let r1 = ov.pin(e.id, &e.prim_path, there, Some("adam"), 17);
    assert_eq!(r1, 1);
    // Pin wins over authored default.
    assert_eq!(f3(ov.resolved_transform(&e).translation()), [9.0, 8.0, 7.0]);
    let pin = ov.get_pin(e.id).unwrap();
    assert_eq!(pin.at_ms, 17);
    assert_eq!(pin.revision, 1);
    assert_eq!(pin.prim_path, "/Root/Pump_01");

    let (r2, existed) = ov.unpin(e.id);
    assert!(existed);
    assert_eq!(r2, 2);
    // Back to authored default; revision is monotonic.
    assert_eq!(f3(ov.resolved_transform(&e).translation()), [0.0; 3]);
    assert!(ov.revision() >= r2);

    // Unpinning what is not pinned still takes a revision.
    assert_eq!(ov.unpin(e.id), (3, false));
}

#[test]
fn pins_and_opinions_leave_each_other_alone() {
    let mut ov = TwinOverlay::new();
    let id = EntityId::from_prim_path("/A");
    ov.pin(id, "/A", Transform::identity(), None, 1);
    let op = StoredOpinion {
        opinion: Opinion::Tag { entity: id, tag: "t".to_string() },
        payload_json: "{}".to_string(),
    };
    let (revision, diff) = ov.apply_opinions("one", "h", &[op.clone()], 2);
    assert_eq!((revision, diff.added.len()), (2, 1));
    assert_eq!(ov.get_pin(id).unwrap().revision, 1);
    ov.apply_opinions("two", "h", &[op], 3);
    ov.apply_opinions("two", "h", &[], 4);
    assert_eq!((ov.opinion_count("one"), ov.opinion_count("two")), (1, 0));
    ov.unpin(id);
    assert_eq!(ov.opinion_count("one"), 1);
    assert_eq!(ov.revision(), 5);
}

#[test]
fn ingests_ndjson_and_links_hierarchy() {
    let nd = r#"
{"primPath":"/Root","kind":"assembly","vf":{"class":"facility"}}
{"primPath":"/Root/Hall","kind":"group","parent":"/Root"}
{"primPath":"/Root/Hall/Pump_01","kind":"component","parent":"/Root/Hall","transform":{"translate":[0,3,0]},"extentsHint":[[-1.6,-0.7,-0.7],[0.9,0.7,0.6]],"vf":{"assetTag":"PUMP-01","tags":["duty"]},"geomRef":{"payloadUri":"./components/pump.usda","primPath":"/Pump","contentHash":"abc"},"bindings":[{"attribute":"flow","sourceId":"victoriametrics","query":"pump_flow_gpm{asset=\"PUMP-01\"}","unit":"gpm","ttlMs":5000,"priority":"background","qualityPolicy":"stale_ok"}]}
"#;
    let lsg = build_from_ndjson(nd);
    assert_eq!(lsg.len(), 3);
    let pump = lsg.by_asset_tag("PUMP-01").expect("pump indexed by tag");
    assert_eq!(f3(pump.transform_default.translation()), [0.0, 3.0, 0.0]);
    assert_eq!(pump.bindings.len(), 1);
    assert_eq!(pump.tags, vec!["duty".to_string()]);
    assert!(pump.geom_ref.is_some());

    let root = lsg.by_path("/Root").unwrap();
    assert_eq!(root.children.len(), 1);
    assert_eq!(root.class(), Some("facility"));
    assert_eq!(lsg.entities_binding("flow").len(), 1);
}

#[test]
fn blank_and_comment_lines_hold_no_record() {
    assert_eq!(record_text(""), None);
    assert_eq!(record_text("  \t "), None);
    assert_eq!(record_text("  # note"), None);
    assert_eq!(record_text("  {\"a\":1} \u{a0}"), Some("{\"a\":1}".to_string()));
}

#[test]
fn record_prefers_matrix_and_explicit_tags() {
    let mut m = [d(0.0); 16];
    for (i, slot) in m.iter_mut().enumerate() {
        *slot = d(i as f64);
    }
    let mut vf = TextMap::new();
    vf.insert(
        "tags".to_string(),
        VfValue::List(vec![VfItem::Text("x".to_string()), VfItem::Other("3".to_string())]),
    );
    let rec = |tags: Vec<String>| PrimRecord {
        prim_path: "/A".to_string(),
        kind: None,
        parent: Some("/P".to_string()),
        transform: Some(TransformRecord { translate: Some(d3([1.0, 2.0, 3.0])), matrix: Some(m) }),
        extents_hint: None,
        vf: vf.clone(),
        tags,
        geom_ref: None,
        bindings: vec![],
    };
    let e = rec(vec!["own".to_string()]).into_entity(Aabb::zero());
    assert_eq!(e.transform_default.matrix, m);
    assert_eq!(e.tags, vec!["own".to_string()]);
    assert_eq!(e.parent, Some(EntityId::from_prim_path("/P")));
    assert_eq!(e.extents, Aabb::zero());
    // Without tags of its own, the texts of the `tags` list stand in.
    let e = rec(vec![]).into_entity(Aabb::zero());
    assert_eq!(e.tags, vec!["x".to_string()]);
}

#[test]
fn entity_id_is_stable_and_deterministic() {
    let a = EntityId::from_prim_path("/PumpStation01/PumpHall/Pump_01");
    let b = EntityId::from_prim_path("/PumpStation01/PumpHall/Pump_01");
    assert_eq!(a, b);
    let c = EntityId::from_prim_path("/PumpStation01/PumpHall/Pump_02");
    assert_ne!(a, c);
}

#[test]
fn ids_are_xxh64_with_seed_zero() {
    // The reference value of XXH64 on no input, and on "abc".
    assert_eq!(EntityId::from_prim_path("").0, 0xef46_db37_51d8_e999);
    assert_eq!(EntityId::from_prim_path("abc").0, 0x44bc_2cf5_ad77_0999);
    assert_eq!(EntityId::from_prim_path("").as_hex(), "ef46db3751d8e999");
    assert_eq!(EntityId(0xab).as_hex(), "00000000000000ab");

    // Anchors and edges hash their parts one after the other.
    let e = EntityId(0xab);
    let hashed = |parts: &[&str]| {
        let mut h = twox_hash::XxHash64::with_seed(0);
        for p in parts {
            h.write(p.as_bytes());
        }
        h.finish()
    };
    let hex = "00000000000000ab";
    assert_eq!(AnchorId::new(e, "out").0, hashed(&[hex, "#anchor#", "out"]));
    let edge = EdgeId::new((e, "out"), (EntityId(1), "in"));
    let other = "0000000000000001";
    assert_eq!(edge.0, hashed(&[hex, ".", "out", "->", other, ".", "in"]));
    assert_eq!(edge.as_hex(), format!("{:016x}", edge.0));
    assert_eq!(AnchorId(7).as_hex(), "0000000000000007");
}

#[test]
fn transform_translation_roundtrip() {
    let t = Transform::from_translation(d3([10.0, 6.0, -1.5]));
    assert_eq!(f3(t.translation()), [10.0, 6.0, -1.5]);
    assert_eq!(Transform::default(), Transform::identity());
    let rows: Vec<f64> = Transform::identity().matrix.iter().map(|x| f(*x)).collect();
    for (i, x) in rows.iter().enumerate() {
        assert_eq!(*x, if i % 5 == 0 { 1.0 } else { 0.0 });
    }
}

#[test]
fn linking_twice_changes_only_the_revision() {
    let mut lsg = build_from_ndjson(FIXTURE_NDJSON);
    let before = lsg.by_path("/PS/Hall").unwrap().children.clone();
    let revision = lsg.revision();
    lsg.link_hierarchy();
    assert_eq!(lsg.by_path("/PS/Hall").unwrap().children, before);
    assert_eq!(lsg.revision(), revision + 1);
}

#[test]
fn an_entity_is_listed_once_under_what_it_binds_now() {
    let mut lsg = Lsg::new();
    let mut e = entity("/A", [0.0; 3]);
    let mut other = entity("/B", [0.0; 3]);
    e.bindings = vec![binding_of("flow", "q1"), binding_of("heat", "q2"), binding_of("flow", "q3")];
    other.bindings = vec![binding_of("flow", "q4")];
    let (a, b) = (e.id, other.id);
    lsg.insert(e.clone());
    lsg.insert(other);
    assert_eq!(lsg.entities_binding("flow"), vec![a, b]);
    // Entered again, the entity comes behind the others, and once.
    lsg.insert(e.clone());
    assert_eq!(lsg.entities_binding("flow"), vec![b, a]);
    assert_eq!(lsg.entities_binding("heat"), vec![a]);
    e.bindings = vec![binding_of("noise", "q5")];
    lsg.insert(e);
    assert_eq!(lsg.entities_binding("flow"), vec![b]);
    assert!(lsg.entities_binding("heat").is_empty());
    assert_eq!(lsg.entities_binding("noise"), vec![a]);
    assert_eq!(lsg.len(), 2);
}

#[test]
fn the_last_pin_wins_over_edits_and_restarts() {
    let mut lsg = Lsg::new();
    lsg.insert(entity("/A", [1.0, 2.0, 3.0]));
    let e = lsg.by_path("/A").unwrap();
    let at = |x: f64| Transform::from_translation(d3([x, 0.0, 0.0]));
    let restart = |ov: &TwinOverlay| {
        let mut back = TwinOverlay::restore(ov.revision());
        if let Some(pin) = ov.get_pin(e.id) {
            back.restore_pin(e.id, pin.clone());
        }
        back
    };
    let mut ov = TwinOverlay::new();
    let authored = ov.resolved_transform(e);
    ov.pin(e.id, "/A", at(1.0), None, 0);
    ov.pin(e.id, "/A", at(2.0), None, 1);
    let mut ov = restart(&ov);
    assert_eq!(ov.resolved_transform(e), at(2.0));
    ov.unpin(e.id);
    let mut ov = restart(&ov);
    assert_eq!(ov.resolved_transform(e), authored);
    ov.pin(e.id, "/A", at(3.0), None, 2);
    let ov = restart(&restart(&ov));
    assert_eq!(ov.resolved_transform(e), at(3.0));
    assert_eq!(ov.revision(), 4);
}

#[test]
fn scene_edits_report_whether_they_changed_anything() {
    let mut lsg = Lsg::new();
    assert!(lsg.is_empty());
    let e = entity("/A", [0.0; 3]);
    let id = e.id;
    lsg.insert(e);
    let ghost = EntityId(id.0 ^ 1);

    assert!(lsg.add_tag(id, "duty"));
    assert!(!lsg.add_tag(id, "duty"));
    assert!(!lsg.add_tag(ghost, "duty"));
    assert!(lsg.remove_tag(id, "duty"));
    assert!(!lsg.remove_tag(id, "duty"));

    assert!(lsg.set_vf(id, "assetTag", VfValue::Text("P-1".to_string())));
    assert!(lsg.set_vf(id, "assetTag", VfValue::Text("P-2".to_string())));
    assert!(!lsg.set_vf(ghost, "assetTag", VfValue::Text("P-2".to_string())));
    assert_eq!(lsg.get(id).unwrap().asset_tag(), Some("P-2"));
    assert!(lsg.remove_vf(id, "assetTag"));
    assert!(!lsg.remove_vf(id, "assetTag"));

    assert!(lsg.upsert_binding(id, binding_of("flow", "q1")));
    assert!(lsg.upsert_binding(id, binding_of("flow", "q2")));
    assert!(!lsg.upsert_binding(ghost, binding_of("flow", "q2")));
    assert_eq!(lsg.get(id).unwrap().bindings[0].query, "q2");
    assert_eq!(lsg.entities_binding("flow"), vec![id]);
    assert_eq!(lsg.get(id).unwrap().bindings.len(), 1);
    assert!(lsg.remove_binding(id, "flow"));
    assert!(!lsg.remove_binding(id, "flow"));
    assert!(lsg.entities_binding("flow").is_empty());
    assert_eq!(lsg.binding_count(), 0);

    let anchor = AnchorId::new(id, "out");
    lsg.insert_anchor(Anchor { id: anchor, entity: id, name: "out".to_string(), pos: d3([1.0; 3]) });
    assert_eq!(lsg.anchor_count(), 1);
    assert_eq!(lsg.anchors()[0].name, "out");
    assert!(lsg.remove_anchor(anchor));
    assert!(!lsg.remove_anchor(anchor));
    let edge = EdgeId::new((id, "out"), (ghost, "in"));
    lsg.insert_edge(Edge { id: edge, from: (id, "out".to_string()), to: (ghost, "in".to_string()) });
    assert_eq!(lsg.edge_count(), 1);
    assert_eq!(lsg.edges()[0].to.1, "in");
    assert!(lsg.remove_edge(edge));
    assert_eq!(lsg.edge_count(), 0);
    assert_eq!(lsg.anchor_count(), 0);
}

fn side(count: u64) -> u64 {
    ((count as f64).cbrt().ceil() as u64).max(1)
}

#[test]
fn generates_requested_count() {
    let lsg = generate(1000, side(1000));
    assert_eq!(lsg.len(), 1000);
    assert_eq!(lsg.payload_count(), 1000);
    assert!(lsg.binding_count() >= 1000);
}

#[test]
fn synthetic_entities_stand_on_a_grid() {
    let e = synth_entity(123, 10);
    // 123 = 3 + 10 * 2 + 100 * 1, five units apart.
    assert_eq!(f3(e.transform_default.translation()), [15.0, 10.0, 5.0]);
    assert_eq!(f3(e.extents.min), [14.0, 9.0, 5.0]);
    assert_eq!(f3(e.extents.max), [16.0, 11.0, 8.0]);
    assert_eq!(f3(e.local_extents.min), [-1.0, -1.0, 0.0]);
    assert_eq!(f3(e.local_extents.max), [1.0, 1.0, 3.0]);
    assert_eq!(e.bindings[0].query, "flow{asset=\"E123\"}");
    assert_eq!(e.prim_path, "/Synth/e123");
    assert_eq!(e.geom_ref.as_ref().unwrap().payload_uri, "./components/pump.usda");
    assert_eq!(e.id, EntityId::from_prim_path(&e.prim_path));
}

#[test]
fn format_bytes_scales() {
    assert_eq!(format_bytes(512), "512.0 B");
    assert_eq!(format_bytes(2048), "2.0 KiB");
}

#[test]
fn format_bytes_rounds_as_the_formatter_does() {
    let reference = |bytes: u64| {
        let units = ["B", "KiB", "MiB", "GiB", "TiB"];
        let mut v = bytes as f64;
        let mut u = 0;
        while v >= 1024.0 && u < units.len() - 1 {
            v /= 1024.0;
            u += 1;
        }
        format!("{v:.1} {}", units[u])
    };
    let mut samples = vec![0, 1, 1023, 1024, 1025, 1075, 1076, 1126, 1127, 1280, 1408, 1536, u64::MAX];
    for shift in 0..64 {
        for delta in [0u64, 1, 51, 52, 1 << 9, 1 << 15] {
            samples.push((1u64 << shift).wrapping_add(delta));
            samples.push((1u64 << shift).wrapping_sub(delta));
        }
    }
    let mut seed: u64 = 1;
    for _ in 0..20000 {
        seed = seed.wrapping_mul(6364136223846793005).wrapping_add(1442695040888963407);
        samples.push(seed >> (seed & 63));
    }
    for n in samples {
        assert_eq!(format_bytes(n), reference(n), "{n}");
    }
}

#[test]
fn report_counts_and_lists() {
    let lsg = build_from_ndjson(FIXTURE_NDJSON);
    let c = kind_counts(&lsg);
    assert_eq!((c.assemblies, c.groups, c.components), (1, 1, 2));
    let attrs = bound_attributes(&lsg);
    assert_eq!(attrs, vec!["flow".to_string()]);
    assert_eq!(binding_summary(&lsg, &attrs), "flow=2");
}

#[test]
fn targets_come_from_the_scene_or_the_path() {
    let lsg = build_from_ndjson(FIXTURE_NDJSON);
    let t = resolve_target("PUMP-02", Some(&lsg)).unwrap();
    assert_eq!(t.prim_path, "/PS/Hall/Pump_02");
    assert_eq!(f3(t.authored.unwrap().translation()), [0.0, 3.0, 0.0]);
    assert_eq!(resolve_target("NOPE", Some(&lsg)).err(), Some(TargetError::NotFound));
    let t = resolve_target("/X/Y", None).unwrap();
    assert_eq!(t.id, EntityId::from_prim_path("/X/Y"));
    assert!(t.authored.is_none());
    assert_eq!(resolve_target("PUMP-02", None).err(), Some(TargetError::NeedsScene));
}

#[test]
fn lists_and_triples_split_at_commas() {
    assert_eq!(split_list(" a, b ,,c"), vec!["a", "b", "", "c"]);
    assert_eq!(split_list(""), vec![""]);
    let t = split_triple("1, 2 ,3").unwrap();
    assert_eq!(t, ("1".to_string(), "2".to_string(), "3".to_string()));
    assert!(split_triple("1,2").is_none());
    assert!(split_triple("1,2,3,4").is_none());
}

#[test]
fn selections_name_what_they_miss() {
    let lsg = build_from_ndjson(FIXTURE_NDJSON);
    let s = resolve_selection(&lsg, " PUMP-02, , NOPE,/PS/Hall");
    assert_eq!(
        s.ids,
        vec![EntityId::from_prim_path("/PS/Hall/Pump_02"), EntityId::from_prim_path("/PS/Hall")]
    );
    assert_eq!(s.missing, vec!["NOPE"]);
}

#[test]
fn assets_come_in_the_order_of_their_tags() {
    let mut lsg = Lsg::new();
    for (path, tag) in [("/a", "T-3"), ("/b", "T-1"), ("/c", ""), ("/d", "T-2"), ("/e", "T-1")] {
        let mut e = entity(path, [0.0; 3]);
        if !tag.is_empty() {
            e.vf.insert("assetTag".to_string(), VfValue::Text(tag.to_string()));
        }
        lsg.insert(e);
    }
    let tags: Vec<&str> = tagged_assets(&lsg).iter().map(|e| e.asset_tag().unwrap()).collect();
    assert_eq!(tags, vec!["T-1", "T-1", "T-2", "T-3"]);
    let ids: Vec<u64> = tagged_assets(&lsg).iter().map(|e| e.id.0).collect();
    assert!(ids[0] < ids[1]);
}

#[test]
fn python_choice_follows_precedence() {
    assert_eq!(choose_python(Some("py"), Some("env"), "venv", true), "py");
    assert_eq!(choose_python(None, Some("env"), "venv", true), "env");
    assert_eq!(choose_python(None, Some(""), "venv", true), "venv");
    assert_eq!(choose_python(None, None, "venv", true), "venv");
    assert_eq!(choose_python(None, None, "venv", false), "python3");
}
