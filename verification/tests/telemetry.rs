//! Telemetry: queries, batches and lazy resolution.

use serde_json::Value;

use vectorflow_sgs::dict::TextMap;
use vectorflow_sgs::hydrate::{PayloadCache, StubPayloadLoader};
use vectorflow_sgs::import::{build, record_text, GeomRefRecord, PrimRecord, TransformRecord};
use vectorflow_sgs::interest::{InterestManager, Region, Subscription};
use vectorflow_sgs::lsg::{Aabb, EntityId, Lsg, TelemetryBinding, VfItem, VfValue};
use vectorflow_sgs::resolver::{
    build_batched_query, demux, escape_regex, parse_query, plan_batches, resolve_active, vm_rows,
    Priority, Quality, ResolveRequest, ResolvedSample, Resolver, StubResolver, TelemetryValue,
    VmError, VmRow, VmSeries, MAX_ASSETS_PER_QUERY,
};
use vectorflow_sgs::rsg::Rsg;
use vectorflow_sgs::scalar::Double;
use vectorflow_sgs::table::IdMap;

fn d(x: f64) -> Double {
    Double::from_bits(x.to_bits())
}

fn f(x: Double) -> f64 {
    f64::from_bits(x.bits)
}

fn d3(p: [f64; 3]) -> [Double; 3] {
    [d(p[0]), d(p[1]), d(p[2])]
}

fn f3(p: [Double; 3]) -> [f64; 3] {
    [f(p[0]), f(p[1]), f(p[2])]
}

fn text_of(v: &Value, key: &str) -> String {
    v.get(key).and_then(Value::as_str).unwrap_or("").to_string()
}

fn opt_text_of(v: &Value, key: &str) -> Option<String> {
    v.get(key).and_then(Value::as_str).map(str::to_string)
}

fn numbers<const N: usize>(v: &Value) -> [Double; N] {
    let mut out = [d(0.0); N];
    for (slot, x) in out.iter_mut().zip(v.as_array().unwrap()) {
        *slot = d(x.as_f64().unwrap());
    }
    out
}

fn vf_value(v: &Value) -> VfValue {
    match v {
        Value::String(s) => VfValue::Text(s.clone()),
        Value::Array(items) => VfValue::List(
            items
                .iter()
                .map(|i| match i {
                    Value::String(s) => VfItem::Text(s.clone()),
                    other => VfItem::Other(other.to_string()),
                })
                .collect(),
        ),
        other => VfValue::Other(other.to_string()),
    }
}

fn record(v: &Value) -> PrimRecord {
    let mut vf = TextMap::new();
    if let Some(fields) = v.get("vf").and_then(Value::as_object) {
        for (k, x) in fields {
            vf.insert(k.clone(), vf_value(x));
        }
    }
    let list = |key: &str| v.get(key).and_then(Value::as_array).cloned().unwrap_or_default();
    PrimRecord {
        prim_path: v.get("primPath").unwrap().as_str().unwrap().to_string(),
        kind: opt_text_of(v, "kind"),
        parent: opt_text_of(v, "parent"),
        transform: v.get("transform").map(|t| TransformRecord {
            translate: t.get("translate").map(numbers),
            matrix: t.get("matrix").map(numbers),
        }),
        extents_hint: v
            .get("extentsHint")
            .map(|e| Aabb { min: numbers(&e[0]), max: numbers(&e[1]) }),
        vf,
        tags: list("tags").iter().map(|t| t.as_str().unwrap().to_string()).collect(),
        geom_ref: v.get("geomRef").map(|g| GeomRefRecord {
            payload_uri: text_of(g, "payloadUri"),
            prim_path: text_of(g, "primPath"),
            content_hash: text_of(g, "contentHash"),
        }),
        bindings: list("bindings")
            .iter()
            .map(|b| TelemetryBinding {
                attribute: text_of(b, "attribute"),
                source_id: text_of(b, "sourceId"),
                query: text_of(b, "query"),
                unit: text_of(b, "unit"),
                ttl_ms: d(b.get("ttlMs").and_then(Value::as_f64).unwrap_or(0.0)),
                priority: text_of(b, "priority"),
                quality_policy: text_of(b, "qualityPolicy"),
            })
            .collect(),
    }
}

fn local_extents(rec: &PrimRecord) -> Aabb {
    let extents = rec.extents_hint.unwrap_or(Aabb::zero());
    let o = f3(rec.transform_default().translation());
    let (min, max) = (f3(extents.min), f3(extents.max));
    Aabb {
        min: d3([min[0] - o[0], min[1] - o[1], min[2] - o[2]]),
        max: d3([max[0] - o[0], max[1] - o[1], max[2] - o[2]]),
    }
}

fn build_from_ndjson(text: &str) -> Lsg {
    let mut entities = Vec::new();
    for line in text.lines() {
        if let Some(json) = record_text(line) {
            let rec = record(&serde_json::from_str(&json).unwrap());
            let local = local_extents(&rec);
            entities.push(rec.into_entity(local));
        }
    }
    build(entities)
}

#[test]
fn parses_metric_and_asset() {
    let p = parse_query("pump_flow_gpm{asset=\"PUMP-01\"}").unwrap();
    assert_eq!(p.metric, "pump_flow_gpm");
    assert_eq!(p.asset, "PUMP-01");
    assert!(p.others.is_empty());
}

#[test]
fn parses_query_with_extra_labels() {
    let p = parse_query("m{zone=\"a\",asset=\"X-1\",unit=\"psi\"}").unwrap();
    assert_eq!(p.metric, "m");
    assert_eq!(p.asset, "X-1");
    assert_eq!(p.others, vec!["zone=\"a\"".to_string(), "unit=\"psi\"".to_string()]);
}

#[test]
fn unparseable_queries_return_none() {
    assert!(parse_query("scalar_expr").is_none());
    assert!(parse_query("m{no_asset=\"x\"}").is_none());
    // Something stands behind the closing brace, or nothing in front of the labels.
    assert!(parse_query("rate(m{asset=\"A\"}[5m])").is_none());
    assert!(parse_query("m{asset=\"A\"} + 1").is_none());
    assert!(parse_query("m{asset=\"A\"").is_none());
    assert!(parse_query(" {asset=\"A\"}").is_none());
    assert!(parse_query("m{asset=A}").is_none());
    assert!(parse_query("").is_none());
}

#[test]
fn only_the_label_named_asset_names_the_asset() {
    let p = parse_query(" m{asset=\"X\",asset_group=\"g\", assets = \"h\"} ").unwrap();
    assert_eq!((p.metric.as_str(), p.asset.as_str()), ("m", "X"));
    assert_eq!(p.others, vec!["asset_group=\"g\"".to_string(), "assets = \"h\"".to_string()]);
    assert!(parse_query("m{asset_group=\"g\"}").is_none());
    let p = parse_query("m{ asset = \"Y-2\" , }").unwrap();
    assert_eq!((p.asset.as_str(), p.others.len()), ("Y-2", 0));
}

#[test]
fn only_one_equality_with_the_asset_can_be_batched() {
    for query in [
        "m{asset!=\"X\"}",
        "m{asset=~\"X|Y\"}",
        "m{asset!~\"X\"}",
        "m{asset=\"X\"Y}",
        "m{asset=X\"Y\"}",
        "m{asset=\"X\",asset=\"Y\"}",
    ] {
        assert!(parse_query(query).is_none(), "{query}");
    }
    let p = parse_query("m{asset=\"\",zone!=\"a\"}").unwrap();
    assert_eq!((p.asset.as_str(), p.others), ("", vec!["zone!=\"a\"".to_string()]));
}

#[test]
fn commas_in_quotes_belong_to_their_label() {
    let p = parse_query("m{asset=\"X\",zone=\"a,b\"}").unwrap();
    assert_eq!((p.asset.as_str(), p.others), ("X", vec!["zone=\"a,b\"".to_string()]));
    let p = parse_query("m{zone=\"a\\\",b}\" , asset=\"X,Y\"}").unwrap();
    assert_eq!((p.asset.as_str(), p.others), ("X,Y", vec!["zone=\"a\\\",b}\"".to_string()]));
    // Behind a brace that is not quoted the labels are over.
    assert!(parse_query("m{asset=\"X\",zone=\"z\"} or n{a=\"b\"}").is_none());
}

#[test]
fn batched_query_builds_regex_alternation() {
    let q = build_batched_query("pump_flow_gpm", &[], &["PUMP-01".into(), "PUMP-02".into()]);
    assert_eq!(q, "pump_flow_gpm{asset=~\"PUMP-01|PUMP-02\"}");
}

#[test]
fn regex_escapes_metacharacters() {
    assert_eq!(escape_regex("A.B+C"), "A\\.B\\+C");
}

#[test]
fn batched_query_keeps_other_labels() {
    let q = build_batched_query("m", &["zone=\"a\"".to_string()], &["X.1".to_string()]);
    assert_eq!(q, "m{zone=\"a\",asset=~\"X\\.1\"}");
}

fn req(entity: &str, query: &str) -> ResolveRequest {
    ResolveRequest {
        entity_id: EntityId::from_prim_path(entity),
        attribute: "x".to_string(),
        source_id: "victoriametrics".to_string(),
        query: query.to_string(),
        ttl_ms: d(5000.0),
        priority: Priority::Background,
    }
}

#[test]
fn plan_batches_groups_by_metric() {
    let reqs = vec![
        req("A", "pump_flow_gpm{asset=\"PUMP-01\"}"),
        req("B", "pump_flow_gpm{asset=\"PUMP-02\"}"),
        req("C", "tank_level_pct{asset=\"TANK-A\"}"),
    ];
    let batches = plan_batches(&reqs);
    // Two metrics -> two upstream queries despite three requests.
    assert_eq!(batches.len(), 2);
}

#[test]
fn plan_batches_caps_alternation_width() {
    // One metric over many assets splits into bounded queries.
    let n = MAX_ASSETS_PER_QUERY * 2 + 5;
    let reqs: Vec<ResolveRequest> = (0..n)
        .map(|i| {
            req(
                &format!("/W/e{i}"),
                &format!("pump_flow_gpm{{asset=\"E{i}\"}}"),
            )
        })
        .collect();
    let batches = plan_batches(&reqs);
    let expected = n.div_ceil(MAX_ASSETS_PER_QUERY);
    assert_eq!(batches.len(), expected, "over-cap group must split");
    // Every member is still accounted for exactly once (demux intact).
    let total_members: usize = batches.iter().map(|b| b.members.len()).sum();
    assert_eq!(total_members, n);
    for b in &batches {
        assert!(b.members.len() <= MAX_ASSETS_PER_QUERY);
    }
}

/// The rows of a reply, with its numerals read by the standard library.
fn parse_vm_vector(json: &str) -> Result<Vec<(Option<String>, f64)>, VmError> {
    let reply: Value = serde_json::from_str(json).unwrap();
    let series: Option<Vec<VmSeries>> =
        reply.get("data").and_then(|x| x.get("result")).and_then(Value::as_array).map(|list| {
            list.iter()
                .map(|s| VmSeries {
                    asset: s["metric"].get("asset").and_then(Value::as_str).map(str::to_string),
                    value: s["value"][1].as_str().and_then(|t| t.parse().ok()).map(d),
                })
                .collect()
        });
    let rows = vm_rows(reply["status"].as_str().unwrap(), series.as_deref())?;
    Ok(rows.into_iter().map(|r| (r.asset, f(r.value))).collect())
}

#[test]
fn parse_vm_vector_extracts_asset_and_value() {
    let json = r#"{
        "status":"success",
        "data":{"resultType":"vector","result":[
            {"metric":{"__name__":"pump_flow_gpm","asset":"PUMP-01"},"value":[1700000000.5,"301.25"]},
            {"metric":{"__name__":"pump_flow_gpm","asset":"PUMP-02"},"value":[1700000000.5,"0"]}
        ]}
    }"#;
    let rows = parse_vm_vector(json).unwrap();
    assert_eq!(rows.len(), 2);
    assert_eq!(rows[0], (Some("PUMP-01".to_string()), 301.25));
    assert_eq!(rows[1], (Some("PUMP-02".to_string()), 0.0));
}

#[test]
fn parse_vm_vector_rejects_error_status() {
    let json = r#"{"status":"error","errorType":"bad_data"}"#;
    assert!(parse_vm_vector(json).is_err());
    assert_eq!(vm_rows("error", None).err(), Some(VmError::Status("error".to_string())));
    assert_eq!(vm_rows("success", None).err(), Some(VmError::MissingData));
    // A series without a number is passed over.
    let series = [VmSeries { asset: None, value: None }];
    assert!(vm_rows("success", Some(&series)).unwrap().is_empty());
}

#[test]
fn freshness_respects_ttl_and_quality() {
    let ok = TelemetryValue {
        value: d(1.0),
        as_of_ms: 1000,
        ttl_ms: d(5000.0),
        quality: Quality::Good,
    };
    assert!(ok.is_fresh(5999));
    assert!(!ok.is_fresh(6000)); // as_of + ttl == now -> expired
    let unavail = TelemetryValue { quality: Quality::Unavailable, ..ok };
    assert!(!unavail.is_fresh(1001)); // never fresh -> always retried
}

#[test]
fn qualities_and_priorities_have_names() {
    assert_eq!(Quality::Good.as_str(), "ok");
    assert_eq!(Quality::Stale.as_str(), "stale");
    assert_eq!(Quality::Unavailable.as_str(), "unavailable");
    assert_eq!(Quality::Error.as_str(), "error");
    assert_eq!(Priority::from_binding("high"), Priority::High);
    assert_eq!(Priority::from_binding("background"), Priority::Background);
    assert_eq!(Priority::from_binding(""), Priority::Background);
    assert!(Priority::High.rank() < Priority::Background.rank());
}

#[test]
fn demux_hands_each_member_its_row() {
    let reqs = vec![
        req("A", "m{asset=\"P-1\"}"),
        req("B", "m{asset=\"P-2\"}"),
        req("C", "scalar_expr"),
    ];
    let batches = plan_batches(&reqs);
    assert_eq!(batches.len(), 2);
    let row = |asset: Option<&str>, v: f64| VmRow { asset: asset.map(str::to_string), value: d(v) };
    for b in &batches {
        let mut out = Vec::new();
        if b.members.len() == 2 {
            let rows = [row(Some("P-2"), 2.0), row(Some("P-9"), 9.0)];
            demux(&reqs, b, Some(&rows), &mut out);
            assert_eq!(out[0].quality, Quality::Unavailable);
            assert_eq!(out[1].quality, Quality::Good);
            assert_eq!(f(out[1].value), 2.0);
            assert_eq!(out[1].entity_id, EntityId::from_prim_path("B"));
        } else {
            // A query of its own takes the first row.
            demux(&reqs, b, Some(&[row(None, 7.5)]), &mut out);
            assert_eq!(f(out[0].value), 7.5);
            out.clear();
            demux(&reqs, b, None, &mut out);
            assert_eq!(out[0].quality, Quality::Unavailable);
        }
    }
}

/// `n` payload-free components on a line near the origin, each binding one of a
/// few metrics.
fn metric_world(n: usize) -> Lsg {
    let metrics = ["flow", "level", "load"];
    let mut s = String::new();
    for i in 0..n {
        let x = i as f64 * 0.5;
        let m = metrics[i % metrics.len()];
        let (lo, hi) = (x - 0.1, x + 0.1);
        s += &format!(
            r#"{{"primPath":"/W/e{i}","kind":"component","transform":{{"translate":[{x},0,0]}},"extentsHint":[[{lo},-0.1,-0.1],[{hi},0.1,0.1]],"vf":{{"assetTag":"E{i}"}},"bindings":[{{"attribute":"{m}","sourceId":"victoriametrics","query":"{m}{{asset=\"E{i}\"}}","ttlMs":5000,"priority":"background","qualityPolicy":"stale_ok"}}]}}"#,
        );
        s.push('\n');
    }
    build_from_ndjson(&s)
}

/// Activates every entity under one selection-only subscription.
fn activate_all(lsg: &Lsg, budget: usize) -> Rsg {
    let mut sub = Subscription::spatial(
        1,
        Region::Sphere { center: d3([0.0, 0.0, 0.0]), radius: d(1.0) },
        budget,
    );
    sub.region = None;
    sub.entity_ids = lsg.entities().iter().map(|e| e.id).collect();
    let mut im = InterestManager::new();
    im.upsert(sub).unwrap();
    let mut rsg = Rsg::new(1);
    let mut cache = PayloadCache::new(StubPayloadLoader);
    let t = im.evaluate(lsg, &IdMap::new());
    rsg.apply(&t, lsg, &mut cache, 0).unwrap();
    rsg
}

#[test]
fn inactive_bindings_cause_zero_vm_traffic() {
    let lsg = metric_world(50);
    // An empty RSG (nothing activated): resolution must not touch the resolver.
    let mut rsg = Rsg::new(1);
    let mut resolver = StubResolver::new(d(1.0));
    let stats = resolve_active(&mut rsg, &lsg, &mut resolver, 1000);

    assert_eq!(stats.requests_issued, 0);
    assert_eq!(resolver.upstream_requests(), 0, "no active entity => no VM traffic");
    assert_eq!(resolver.batch_calls(), 0, "resolve() not even invoked");
}

#[test]
fn activating_1k_entities_batches_by_metric() {
    let lsg = metric_world(1000);
    let mut rsg = activate_all(&lsg, 2000);
    assert_eq!(rsg.len(), 1000);

    let mut resolver = StubResolver::new(d(2.5));
    let stats = resolve_active(&mut rsg, &lsg, &mut resolver, 1000);

    // 1000 bindings resolved, but collapsed to one upstream query per metric.
    assert_eq!(stats.requests_issued, 1000);
    assert_eq!(stats.ok, 1000);
    assert_eq!(
        resolver.upstream_requests(),
        3,
        "1000 bindings over 3 metrics => 3 batched queries"
    );
    assert_eq!(stats.upstream_delta, 3);
}

#[test]
fn ttl_serves_cache_then_refreshes() {
    let lsg = metric_world(10);
    let mut rsg = activate_all(&lsg, 100);
    let mut resolver = StubResolver::new(d(1.0));

    // First pass at t=1000: all fetched.
    let s0 = resolve_active(&mut rsg, &lsg, &mut resolver, 1000);
    assert_eq!(s0.requests_issued, 10);
    assert_eq!(s0.cache_hits, 0);
    let upstream_after_first = resolver.upstream_requests();

    // Within TTL (5000ms): everything served from the RSG cache, no new fetch.
    let s1 = resolve_active(&mut rsg, &lsg, &mut resolver, 2000);
    assert_eq!(s1.requests_issued, 0);
    assert_eq!(s1.cache_hits, 10);
    assert_eq!(resolver.upstream_requests(), upstream_after_first, "cache hit => no VM traffic");

    // Past TTL (as_of 1000 + ttl 5000 = 6000): refresh.
    let s2 = resolve_active(&mut rsg, &lsg, &mut resolver, 6001);
    assert_eq!(s2.requests_issued, 10);
    assert!(resolver.upstream_requests() > upstream_after_first, "expired => refetch");
}

#[test]
fn outage_downgrades_prior_value_to_stale() {
    let lsg = metric_world(6);
    let mut rsg = activate_all(&lsg, 100);

    // Good pass first: real values cached.
    let mut good = StubResolver::new(d(7.0));
    let s0 = resolve_active(&mut rsg, &lsg, &mut good, 1000);
    assert_eq!(s0.ok, 6);

    // Past TTL, resolver is down: prior values stay visible but go stale.
    let mut down = StubResolver::outage();
    let s1 = resolve_active(&mut rsg, &lsg, &mut down, 6001);
    assert_eq!(s1.stale, 6);
    assert_eq!(s1.ok, 0);
    assert_eq!(s1.unavailable, 0);

    for re in rsg.entities() {
        for key in re.telemetry.keys() {
            let v = re.telemetry.get(&key).unwrap();
            assert_eq!(f(v.value), 7.0, "stale value is the last known good");
            assert_eq!(v.quality, Quality::Stale);
        }
    }
}

#[test]
fn without_a_prior_value_an_outage_is_unavailable() {
    let lsg = metric_world(2);
    let mut rsg = activate_all(&lsg, 100);
    let mut down = StubResolver::outage();
    let s = resolve_active(&mut rsg, &lsg, &mut down, 0);
    assert_eq!((s.ok, s.stale, s.unavailable), (0, 0, 2));
    // Nothing counts as fresh, so all is asked for again.
    let s = resolve_active(&mut rsg, &lsg, &mut down, 1);
    assert_eq!(s.requests_issued, 2);
    assert_eq!(down.batch_calls(), 2);
}

/// Records the order and priority of requests as the resolver receives them.
#[derive(Default)]
struct RecordingResolver {
    seen: Vec<Priority>,
    upstream: u64,
    batch: u64,
}

impl Resolver for RecordingResolver {
    fn resolve(&mut self, reqs: &[ResolveRequest]) -> Vec<ResolvedSample> {
        self.batch += 1;
        let mut out = Vec::with_capacity(reqs.len());
        for r in reqs {
            self.seen.push(r.priority);
            self.upstream += 1;
            out.push(ResolvedSample {
                entity_id: r.entity_id,
                attribute: r.attribute.clone(),
                value: d(1.0),
                quality: Quality::Good,
            });
        }
        out
    }
    fn upstream_requests(&self) -> u64 {
        self.upstream
    }
    fn batch_calls(&self) -> u64 {
        self.batch
    }
}

#[test]
fn priority_orders_high_before_background() {
    // Four entities, alternating high / background priority bindings.
    let mut nd = String::new();
    for i in 0..4 {
        let prio = if i % 2 == 0 { "high" } else { "background" };
        let (lo, hi) = (i as f64 - 0.1, i as f64 + 0.1);
        nd += &format!(
            r#"{{"primPath":"/W/e{i}","kind":"component","transform":{{"translate":[{i},0,0]}},"extentsHint":[[{lo},-0.1,-0.1],[{hi},0.1,0.1]],"vf":{{"assetTag":"E{i}"}},"bindings":[{{"attribute":"a{i}","sourceId":"victoriametrics","query":"m{i}{{asset=\"E{i}\"}}","ttlMs":5000,"priority":"{prio}","qualityPolicy":"stale_ok"}}]}}"#,
        );
        nd.push('\n');
    }
    let lsg = build_from_ndjson(&nd);
    let mut rsg = activate_all(&lsg, 100);

    let mut resolver = RecordingResolver::default();
    resolve_active(&mut rsg, &lsg, &mut resolver, 1000);

    // Once a background request appears, no high-priority request may follow.
    let mut seen_background = false;
    for p in &resolver.seen {
        match p {
            Priority::Background => seen_background = true,
            Priority::High => assert!(!seen_background, "high must precede background"),
        }
    }
    assert_eq!(resolver.seen.len(), 4);
}

#[test]
fn resolution_never_mutates_lsg() {
    let lsg = metric_world(20);
    let start_rev = lsg.revision();
    let mut rsg = activate_all(&lsg, 100);
    let mut resolver = StubResolver::new(d(5.0));
    resolve_active(&mut rsg, &lsg, &mut resolver, 1000);
    assert_eq!(
        lsg.revision(),
        start_rev,
        "resolution must not mutate the LSG (no live values in USD)"
    );
}
