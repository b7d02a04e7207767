//! The Flow3D language, and the opinions that it lowers into.

use serde_json::{Number, Value};

use vectorflow_sgs::dict::TextMap;
use vectorflow_sgs::dsl::ast::Scene;
use vectorflow_sgs::dsl::compile::{compile, numerals, CompileResult, Numeral};
use vectorflow_sgs::dsl::diag::{gutter_arrow, render, render_all, Diagnostic, Span};
use vectorflow_sgs::dsl::lexer::{lex, Lexer, Tok};
use vectorflow_sgs::dsl::parser::parse;
use vectorflow_sgs::hash::content_hash;
use vectorflow_sgs::hydrate::{PayloadCache, StubPayloadLoader};
use vectorflow_sgs::import::{build, record_text, GeomRefRecord, PrimRecord, TransformRecord};
use vectorflow_sgs::interest::{Hit, InterestManager, Region, Subscription, Transitions};
use vectorflow_sgs::lsg::{
    Aabb, Anchor, AnchorId, Edge, EdgeId, Entity, EntityId, Lsg, TelemetryBinding, Transform,
    VfItem, VfValue,
};
use vectorflow_sgs::opinion::{
    apply, diff, diff_slots, due_positions, gone_positions, reconcile, touched_entities, unapply,
    Opinion, SlotHash, StoredOpinion,
};
use vectorflow_sgs::overlay::{OpinionRow, TwinOverlay};
use vectorflow_sgs::publish::{publish, stormed};
use vectorflow_sgs::report::select_diagnostics;
use vectorflow_sgs::rsg::Rsg;
use vectorflow_sgs::scalar::Double;
use vectorflow_sgs::spatial::{aabb_overlaps, Cell, SpatialIndex};
use vectorflow_sgs::table::IdMap;

fn d(x: f64) -> Double {
    Double::from_bits(x.to_bits())
}

fn f(x: Double) -> f64 {
    f64::from_bits(x.bits)
}

fn d3(p: [f64; 3]) -> [Double; 3] {
    [d(p[0]), d(p[1]), d(p[2])]
}

fn f3(p: [Double; 3]) -> [f64; 3] {
    [f(p[0]), f(p[1]), f(p[2])]
}

fn text_of(v: &Value, key: &str) -> String {
    v.get(key).and_then(Value::as_str).unwrap_or("").to_string()
}

fn opt_text_of(v: &Value, key: &str) -> Option<String> {
    v.get(key).and_then(Value::as_str).map(str::to_string)
}

fn numbers<const N: usize>(v: &Value) -> [Double; N] {
    let mut out = [d(0.0); N];
    for (slot, x) in out.iter_mut().zip(v.as_array().unwrap()) {
        *slot = d(x.as_f64().unwrap());
    }
    out
}

fn vf_value(v: &Value) -> VfValue {
    match v {
        Value::String(s) => VfValue::Text(s.clone()),
        Value::Array(items) => VfValue::List(
            items
                .iter()
                .map(|i| match i {
                    Value::String(s) => VfItem::Text(s.clone()),
                    other => VfItem::Other(other.to_string()),
                })
                .collect(),
        ),
        other => VfValue::Other(other.to_string()),
    }
}

fn record(v: &Value) -> PrimRecord {
    let mut vf = TextMap::new();
    if let Some(fields) = v.get("vf").and_then(Value::as_object) {
        for (k, x) in fields {
            vf.insert(k.clone(), vf_value(x));
        }
    }
    let list = |key: &str| v.get(key).and_then(Value::as_array).cloned().unwrap_or_default();
    PrimRecord {
        prim_path: v.get("primPath").unwrap().as_str().unwrap().to_string(),
        kind: opt_text_of(v, "kind"),
        parent: opt_text_of(v, "parent"),
        transform: v.get("transform").map(|t| TransformRecord {
            translate: t.get("translate").map(numbers),
            matrix: t.get("matrix").map(numbers),
        }),
        extents_hint: v
            .get("extentsHint")
            .map(|e| Aabb { min: numbers(&e[0]), max: numbers(&e[1]) }),
        vf,
        tags: list("tags").iter().map(|t| t.as_str().unwrap().to_string()).collect(),
        geom_ref: v.get("geomRef").map(|g| GeomRefRecord {
            payload_uri: text_of(g, "payloadUri"),
            prim_path: text_of(g, "primPath"),
            content_hash: text_of(g, "contentHash"),
        }),
        bindings: list("bindings")
            .iter()
            .map(|b| TelemetryBinding {
                attribute: text_of(b, "attribute"),
                source_id: text_of(b, "sourceId"),
                query: text_of(b, "query"),
                unit: text_of(b, "unit"),
                ttl_ms: d(b.get("ttlMs").and_then(Value::as_f64).unwrap_or(0.0)),
                priority: text_of(b, "priority"),
                quality_policy: text_of(b, "qualityPolicy"),
            })
            .collect(),
    }
}

fn local_extents(rec: &PrimRecord) -> Aabb {
    let extents = rec.extents_hint.unwrap_or(Aabb::zero());
    let o = f3(rec.transform_default().translation());
    let (min, max) = (f3(extents.min), f3(extents.max));
    Aabb {
        min: d3([min[0] - o[0], min[1] - o[1], min[2] - o[2]]),
        max: d3([max[0] - o[0], max[1] - o[1], max[2] - o[2]]),
    }
}

fn build_from_ndjson(text: &str) -> Lsg {
    let mut entities = Vec::new();
    for line in text.lines() {
        if let Some(json) = record_text(line) {
            let rec = record(&serde_json::from_str(&json).unwrap());
            let local = local_extents(&rec);
            entities.push(rec.into_entity(local));
        }
    }
    build(entities)
}

const CELL_SIZE: f64 = 8.0;

fn centroid(a: &Aabb) -> [f64; 3] {
    let (min, max) = (f3(a.min), f3(a.max));
    [(min[0] + max[0]) * 0.5, (min[1] + max[1]) * 0.5, (min[2] + max[2]) * 0.5]
}

fn cell_of(p: [f64; 3]) -> Cell {
    Cell {
        x: (p[0] / CELL_SIZE).floor() as i64,
        y: (p[1] / CELL_SIZE).floor() as i64,
        z: (p[2] / CELL_SIZE).floor() as i64,
    }
}

fn index(lsg: &Lsg) -> SpatialIndex {
    let mut idx = SpatialIndex::new();
    for e in lsg.entities() {
        idx.insert(cell_of(centroid(&e.extents)), e.id);
    }
    idx
}

fn candidates_for_sphere(idx: &SpatialIndex, c: [f64; 3], radius: f64) -> Vec<EntityId> {
    let r = radius.max(0.0);
    idx.candidates_in_cells(
        cell_of([c[0] - r, c[1] - r, c[2] - r]),
        cell_of([c[0] + r, c[1] + r, c[2] + r]),
    )
}

fn point_in_sphere(p: [f64; 3], center: [f64; 3], radius: f64) -> bool {
    let v = [p[0] - center[0], p[1] - center[1], p[2] - center[2]];
    v[0] * v[0] + v[1] * v[1] + v[2] * v[2] <= radius * radius
}

fn region_hits(region: &Region, lsg: &Lsg, idx: &SpatialIndex) -> Vec<Hit> {
    let (center, ids) = match region {
        Region::Sphere { center, radius } => {
            (f3(*center), candidates_for_sphere(idx, f3(*center), f(*radius)))
        }
        Region::Aabb { min, max } => (
            centroid(&Aabb { min: *min, max: *max }),
            idx.candidates_in_cells(cell_of(f3(*min)), cell_of(f3(*max))),
        ),
        Region::Frustum(fr) => (
            centroid(&fr.bounds),
            idx.candidates_in_cells(cell_of(f3(fr.bounds.min)), cell_of(f3(fr.bounds.max))),
        ),
    };
    let mut hits = Vec::new();
    for id in ids {
        let e = lsg.get(id).unwrap();
        let c = centroid(&e.extents);
        let inside = match region {
            Region::Sphere { center, radius } => point_in_sphere(c, f3(*center), f(*radius)),
            Region::Aabb { min, max } => aabb_overlaps(&e.extents, *min, *max),
            Region::Frustum(_) => true,
        };
        if inside {
            let dist = (c[0] - center[0]).powi(2)
                + (c[1] - center[1]).powi(2)
                + (c[2] - center[2]).powi(2);
            hits.push(Hit { distance: d(dist), id });
        }
    }
    hits
}

fn all_hits(im: &InterestManager, lsg: &Lsg, idx: &SpatialIndex) -> IdMap<Vec<Hit>> {
    let mut hits = IdMap::new();
    for id in im.ids() {
        if let Some(region) = &im.get(id).unwrap().region {
            hits.insert(id, region_hits(region, lsg, idx));
        }
    }
    hits
}

fn evaluate(im: &mut InterestManager, lsg: &Lsg, idx: &SpatialIndex) -> Transitions {
    let hits = all_hits(im, lsg, idx);
    im.evaluate(lsg, &hits)
}

fn sphere(center: [f64; 3], radius: f64) -> Region {
    Region::Sphere { center: d3(center), radius: d(radius) }
}

fn numeral(text: &str) -> Numeral {
    let value: f64 = text.parse().unwrap();
    let shown = if value.fract() == 0.0 {
        format!("{}", value as i64)
    } else {
        format!("{value}")
    };
    Numeral { text: text.to_string(), value: d(value), shown }
}

fn compile_source(src: &str, lsg: &Lsg) -> CompileResult {
    let table: Vec<Numeral> = numerals(src).iter().map(|t| numeral(t)).collect();
    compile(src, lsg, &table)
}

fn ent(path: &str, tag: &str) -> Entity {
    let mut vf = TextMap::new();
    vf.insert("assetTag".to_string(), VfValue::Text(tag.to_string()));
    Entity {
        id: EntityId::from_prim_path(path),
        prim_path: path.to_string(),
        parent: None,
        children: vec![],
        kind: Some("component".to_string()),
        tags: vec![],
        vf,
        transform_default: Transform::identity(),
        extents: Aabb::zero(),
        local_extents: Aabb::zero(),
        geom_ref: None,
        bindings: vec![],
    }
}

fn scene_lsg() -> Lsg {
    let mut lsg = Lsg::new();
    lsg.insert(ent("/PS/Pump_01", "PUMP-01"));
    lsg.insert(ent("/PS/Tank_A", "TANK-A"));
    lsg.link_hierarchy();
    lsg
}

// Lexing.

fn kinds(src: &str) -> Vec<Tok> {
    lex(src).0.into_iter().map(|t| t.tok).collect()
}

#[test]
fn lexes_keywords_idents_and_punct() {
    let ks = kinds("scene part PUMP-01 { }");
    assert_eq!(ks[0], Tok::Scene);
    assert_eq!(ks[1], Tok::Part);
    assert_eq!(ks[2], Tok::Ident("PUMP-01".into()));
    assert_eq!(ks[3], Tok::LBrace);
    assert_eq!(ks[4], Tok::RBrace);
    assert_eq!(ks[5], Tok::Eof);
}

#[test]
fn distinguishes_arrow_from_negative_number() {
    let ks = kinds("PUMP-01.a -> TANK-A.b  at (-1.5, 0, 0)");
    assert!(ks.contains(&Tok::Arrow));
    assert!(ks.contains(&Tok::Dot));
    assert!(ks.iter().any(|t| matches!(t, Tok::Num(s) if s.parse::<f64>() == Ok(-1.5))));
    assert!(ks.contains(&Tok::Ident("PUMP-01".into())));
}

#[test]
fn lexes_duration_and_string_escapes() {
    let ks = kinds("ttl 5000ms metric(\"m{asset=\\\"PUMP-01\\\"}\")");
    assert!(ks.iter().any(|t| matches!(t, Tok::Dur(s) if s.parse::<f64>() == Ok(5000.0))));
    assert!(ks.iter().any(|t| matches!(t, Tok::Str(s) if s == "m{asset=\"PUMP-01\"}")));
}

#[test]
fn tracks_line_and_column() {
    let (toks, _) = lex("scene\n  part");
    assert_eq!(toks[1].span.line, 2);
    assert_eq!(toks[1].span.col, 3);
}

#[test]
fn lexer_reports_what_it_cannot_read() {
    let (toks, diags) = lex("scene \"open\n@ 1.");
    assert!(diags.iter().any(|x| x.message.contains("unterminated string")), "{diags:?}");
    assert!(diags.iter().any(|x| x.message.contains("unexpected character")), "{diags:?}");
    assert_eq!(toks.last().unwrap().tok, Tok::Eof);
    let (_, diags) = lex("-. 1");
    assert_eq!(diags[0].message, "invalid number `-.`");
    let (toks, diags) = lex("# a comment\n  # another\nscene");
    assert!(diags.is_empty(), "{diags:?}");
    assert_eq!(toks[0].tok, Tok::Scene);
    assert_eq!(toks[0].span.line, 3);
    let ks = kinds("\"\u{e9}\\n\"");
    assert_eq!(ks[0], Tok::Str("\u{e9}\n".into()));
}

#[test]
fn a_backslash_stands_for_the_whole_character_behind_it() {
    for (src, value) in [
        ("\"\\\u{e9}\"", "\u{e9}"),
        ("\"a\\\u{20ac}b\\\\\"", "a\u{20ac}b\\"),
        ("\"\\\u{1f600}\\t\\\"\"", "\u{1f600}\t\""),
    ] {
        let (toks, diags) = lex(src);
        assert!(diags.is_empty(), "{diags:?}");
        assert_eq!(toks.len(), 2);
        assert_eq!(toks[0].tok, Tok::Str(value.into()));
        assert_eq!(toks[0].span.len, src.len());
        assert_eq!(toks[1].tok, Tok::Eof);
    }
    let (toks, diags) = lex("\"\\\u{e9}");
    assert_eq!(toks[0].tok, Tok::Str("\u{e9}".into()));
    assert_eq!(diags[0].message, "unterminated string literal");
    let mut found = Vec::new();
    let mut lexer = Lexer::new("tag \"x\"");
    assert_eq!(lexer.next_token(&mut found).tok, Tok::Tag);
    assert_eq!(lexer.next_token(&mut found).tok, Tok::Str("x".into()));
    assert_eq!(lexer.next_token(&mut found).tok, Tok::Eof);
    assert!(found.is_empty());
}

#[test]
fn tokens_stand_in_order_and_end_once() {
    let src = "scene \"PS\" part A-1 { anchor x at (1, -2.5, 3) }\n# end\npipe A.x -> B.y";
    let (toks, _) = lex(src);
    let ends = toks.iter().filter(|t| t.tok == Tok::Eof).count();
    assert_eq!(ends, 1);
    assert_eq!(toks.last().unwrap().tok, Tok::Eof);
    for pair in toks.windows(2) {
        assert!(pair[0].span.offset + pair[0].span.len <= pair[1].span.offset);
    }
    for t in &toks {
        let before = &src.as_bytes()[..t.span.offset];
        let line = 1 + before.iter().filter(|b| **b == b'\n').count();
        let col = 1 + before.iter().rev().take_while(|b| **b != b'\n').count();
        assert_eq!((t.span.line as usize, t.span.col as usize), (line, col));
    }
}

// Parsing.

fn parse_src(src: &str) -> (Option<Scene>, Vec<Diagnostic>) {
    let (toks, ld) = lex(src);
    parse(toks, ld)
}

#[test]
fn parses_a_full_part_and_pipe() {
    let src = r#"
scene "PS"
part PUMP-01 {
  tag "duty"
  meta manufacturer = "Acme"
  anchor discharge at (0.9, 0, 0)
  bind flow metric("pump_flow_gpm{asset=\"PUMP-01\"}") unit "gpm" ttl 5000ms priority high
}
pipe PUMP-01.discharge -> TANK-A.inlet
"#;
    let (scene, diags) = parse_src(src);
    assert!(diags.iter().all(|d| !d.is_error()), "diags: {diags:?}");
    let scene = scene.unwrap();
    assert_eq!(scene.name, "PS");
    assert_eq!(scene.parts.len(), 1);
    let p = &scene.parts[0];
    assert_eq!(p.selector, "PUMP-01");
    assert_eq!(p.tags.len(), 1);
    assert_eq!(p.metas.len(), 1);
    assert_eq!(p.anchors.len(), 1);
    assert_eq!(p.bindings.len(), 1);
    assert_eq!(p.bindings[0].unit.as_deref(), Some("gpm"));
    assert_eq!(p.bindings[0].ttl_ms.as_ref().map(|t| t.parse::<f64>()), Some(Ok(5000.0)));
    assert_eq!(p.bindings[0].priority.as_deref(), Some("high"));
    assert_eq!(scene.pipes.len(), 1);
    assert_eq!(scene.pipes[0].from.anchor, "discharge");
    assert_eq!(scene.pipes[0].to.part, "TANK-A");
}

#[test]
fn reports_error_with_span_and_continues() {
    // Missing closing brace on first part; second part should still parse.
    let src = "scene \"X\"\npart A {\n  tag \"t\"\npart B {\n}\n";
    let (scene, diags) = parse_src(src);
    assert!(diags.iter().any(|d| d.is_error()));
    // Parser recovered enough to see part B.
    let scene = scene.unwrap();
    assert!(scene.parts.iter().any(|p| p.selector == "B"));
}

#[test]
fn parsing_keeps_the_messages_of_the_lexer() {
    let (toks, first) = lex("scene \"X\" @ part A { tag 5 }");
    assert_eq!(first.len(), 1);
    let kept = first[0].message.clone();
    let (scene, diags) = parse(toks, first);
    assert_eq!(diags[0].message, kept);
    assert!(diags.len() > 1);
    assert_eq!(scene.unwrap().parts.len(), 1);
}

#[test]
fn missing_scene_header_is_an_error() {
    let (scene, diags) = parse_src("part A { }");
    assert!(scene.is_none());
    assert!(diags[0].message.contains("scene"));
    assert_eq!(diags[0].span.line, 1);
    assert_eq!(diags[0].span.col, 1);
}

#[test]
fn a_broken_item_does_not_hide_the_next_part() {
    let (scene, diags) = parse_src("scene \"X\"\npart A {\n  tag 5\npart B {\n  tag \"x\"\n}\n");
    let parts = scene.unwrap().parts;
    assert_eq!(parts.len(), 2);
    assert_eq!((parts[0].selector.as_str(), parts[0].tags.len()), ("A", 0));
    assert_eq!(parts[1].selector, "B");
    assert_eq!(parts[1].tags[0].value, "x");
    assert_eq!(diags.len(), 2, "{diags:?}");
    assert_eq!(diags[0].message, "expected a tag string, found number");
    assert_eq!(diags[0].span.locator(), "3:7");
    assert_eq!(diags[1].message, "missing `}` to close `part` before the next item");
    assert_eq!(diags[1].span.locator(), "4:1");
    let (scene, diags) = parse_src("scene \"X\"\npart A { oops\npipe A.x -> B.y\n");
    let scene = scene.unwrap();
    assert_eq!((scene.parts.len(), scene.pipes.len()), (1, 1));
    assert_eq!(diags.len(), 2, "{diags:?}");
}

// Messages.

#[test]
fn caret_points_at_column() {
    let src = "scene \"X\"\npart PUMP-01 {\n  }\n";
    let d = Diagnostic::error("unexpected token `}`".to_string(), Span::new(3, 3, 26, 1));
    let out = render(&d, src, "pump.flow3d");
    assert!(out.contains("error: unexpected token `}`"));
    assert!(out.contains("pump.flow3d:3:3"));
    // Caret sits under column 3 (two leading spaces then `^`).
    assert!(out.contains("  ^"), "rendered:\n{out}");
}

#[test]
fn the_whole_message_is_laid_out() {
    let src = "\n".repeat(11) + "  }";
    let d = Diagnostic::error("unexpected token `}`".to_string(), Span::new(12, 3, 13, 1));
    assert_eq!(gutter_arrow("  "), "  ");
    assert_eq!(
        render(&d, &src, "pump.flow3d"),
        "error: unexpected token `}`\n  --> pump.flow3d:12:3\n   |\n12 |   }\n   |   ^"
    );
}

#[test]
fn carets_stay_within_the_line() {
    let carets = |line: &str, span: Span| {
        let d = Diagnostic::warning("w".to_string(), span);
        let out = render(&d, line, "f");
        let last = out.lines().last().unwrap().strip_prefix("  | ").unwrap().to_string();
        (last.len() - last.trim_start().len(), last.trim_start().to_string())
    };
    assert_eq!(carets("abcde", Span::new(1, 2, 1, 3)), (1, "^^^".to_string()));
    assert_eq!(carets("abcde", Span::new(1, 3, 2, 40)), (2, "^^^^^".to_string()));
    assert_eq!(carets("abcde", Span::new(1, 1, 0, 0)), (0, "^".to_string()));
    assert_eq!(carets("\n", Span::new(1, 4, 0, 9)), (3, "^".to_string()));
    assert_eq!(carets("\u{e9}", Span::new(1, 1, 0, 7)), (0, "^^".to_string()));
}

#[test]
fn messages_are_rendered_one_after_the_other() {
    let src = "scene X";
    let a = Diagnostic::error("a".to_string(), Span::new(1, 7, 6, 1));
    let b = Diagnostic::warning("b".to_string(), Span::point(1, 1, 0));
    assert_eq!(Span::new(4, 2, 9, 1).locator(), "4:2");
    let out = render_all(&[a.clone(), b.clone()], src, "f");
    let parts = [render(&a, src, "f"), render(&b, src, "f")];
    assert!(out.starts_with(&parts[0]) && out.ends_with(&parts[1]), "{out}");
    assert!(parts[1].contains("warning: b"));
    let both = vec![a, b];
    assert_eq!(select_diagnostics(&both, true).len(), 1);
    assert_eq!(select_diagnostics(&both, false)[0].message, "b");
}

// Compiling.

#[test]
fn lowers_parts_and_pipes_to_opinions() {
    let lsg = scene_lsg();
    let src = r#"
scene "PS"
part PUMP-01 {
  tag "duty"
  anchor discharge at (0.9, 0, 0)
  bind flow metric("pump_flow_gpm{asset=\"PUMP-01\"}") unit "gpm"
}
part TANK-A {
  anchor inlet at (0, 0, 1)
}
pipe PUMP-01.discharge -> TANK-A.inlet
"#;
    let r = compile_source(src, &lsg);
    assert!(!r.has_errors(), "diags: {:?}", r.diagnostics);
    // 1 tag + 1 anchor + 1 binding + 1 anchor + 1 edge = 5 opinions.
    assert_eq!(r.opinions.len(), 5);
    assert!(r.opinions.iter().any(|o| matches!(o, Opinion::Edge(_))));
}

#[test]
fn unknown_part_reports_at_span() {
    let lsg = scene_lsg();
    let src = "scene \"PS\"\npart NOPE {\n  tag \"x\"\n}\n";
    let r = compile_source(src, &lsg);
    assert!(r.has_errors());
    let e = r.diagnostics.iter().find(|d| d.is_error()).unwrap();
    assert!(e.message.contains("unknown part `NOPE`"));
    assert_eq!(e.span.line, 2);
    assert_eq!(r.error_count(), 1);
}

#[test]
fn dangling_pipe_anchor_warns_not_errors() {
    let lsg = scene_lsg();
    let src = "scene \"PS\"\npipe PUMP-01.x -> TANK-A.y\n";
    let r = compile_source(src, &lsg);
    assert!(!r.has_errors(), "diags: {:?}", r.diagnostics);
    assert!(r.diagnostics.iter().any(|d| !d.is_error()));
}

#[test]
fn numerals_reach_opinions_by_their_values() {
    let lsg = scene_lsg();
    let src = "scene \"PS\"\npart PUMP-01 {\n  meta serial = 42\n  meta ratio = 1.50\n  anchor a at (1.25, -2, 0)\n  bind flow metric(\"m\") ttl 250ms\n  bind temp metric(\"n\")\n}\n";
    let r = compile_source(src, &lsg);
    assert!(!r.has_errors(), "{:?}", r.diagnostics);
    let metas: Vec<&str> = r
        .opinions
        .iter()
        .filter_map(|o| match o {
            Opinion::Meta { value, .. } => Some(value.as_str()),
            _ => None,
        })
        .collect();
    assert_eq!(metas, vec!["42", "1.5"]);
    let pos = r
        .opinions
        .iter()
        .find_map(|o| match o {
            Opinion::Anchor(a) => Some(f3(a.pos)),
            _ => None,
        })
        .unwrap();
    assert_eq!(pos, [1.25, -2.0, 0.0]);
    let ttls: Vec<f64> = r
        .opinions
        .iter()
        .filter_map(|o| match o {
            Opinion::Binding { binding, .. } => Some(f(binding.ttl_ms)),
            _ => None,
        })
        .collect();
    assert_eq!(ttls, vec![250.0, 5000.0]);
}

// Opinions.

fn json_text(s: &str) -> Value {
    Value::String(s.to_string())
}

fn object(fields: Vec<(&str, Value)>) -> Value {
    let mut m = serde_json::Map::new();
    for (k, v) in fields {
        m.insert(k.to_string(), v);
    }
    Value::Object(m)
}

fn number(x: Double) -> Value {
    Number::from_f64(f(x)).map_or(Value::Null, Value::Number)
}

/// The opinion with its payload as it is persisted.
fn stored(op: &Opinion) -> StoredOpinion {
    let payload = match op {
        Opinion::Binding { entity, binding } => object(vec![
            ("entity", json_text(&entity.as_hex())),
            ("attribute", json_text(&binding.attribute)),
            ("source_id", json_text(&binding.source_id)),
            ("query", json_text(&binding.query)),
            ("unit", json_text(&binding.unit)),
            ("ttl_ms", number(binding.ttl_ms)),
            ("priority", json_text(&binding.priority)),
            ("quality_policy", json_text(&binding.quality_policy)),
        ]),
        Opinion::Tag { entity, tag } => {
            object(vec![("entity", json_text(&entity.as_hex())), ("tag", json_text(tag))])
        }
        Opinion::Meta { entity, key, value } => object(vec![
            ("entity", json_text(&entity.as_hex())),
            ("key", json_text(key)),
            ("meta", json_text(value)),
        ]),
        Opinion::Anchor(a) => object(vec![
            ("id", json_text(&a.id.as_hex())),
            ("entity", json_text(&a.entity.as_hex())),
            ("name", json_text(&a.name)),
            ("pos", Value::Array(a.pos.iter().map(|x| number(*x)).collect())),
        ]),
        Opinion::Edge(e) => object(vec![
            ("id", json_text(&e.id.as_hex())),
            ("from", json_text(&e.from.1)),
            ("to", json_text(&e.to.1)),
        ]),
    };
    StoredOpinion { opinion: op.clone(), payload_json: object(vec![(op.kind(), payload)]).to_string() }
}

fn all_stored(ops: &[Opinion]) -> Vec<StoredOpinion> {
    ops.iter().map(stored).collect()
}

fn hashes(ops: &[StoredOpinion]) -> Vec<SlotHash> {
    ops.iter().map(|o| SlotHash { key: o.key(), hash: o.content_hash() }).collect()
}

fn binding_op(entity: EntityId, attr: &str, query: &str) -> StoredOpinion {
    stored(&Opinion::Binding {
        entity,
        binding: TelemetryBinding {
            attribute: attr.to_string(),
            source_id: "victoriametrics".into(),
            query: query.to_string(),
            unit: String::new(),
            ttl_ms: d(5000.0),
            priority: "background".into(),
            quality_policy: "stale_ok".into(),
        },
    })
}

fn tag_op(entity: EntityId, tag: &str) -> StoredOpinion {
    stored(&Opinion::Tag { entity, tag: tag.into() })
}

#[test]
fn diff_classifies_added_changed_removed_unchanged() {
    let e = EntityId::from_prim_path("/A");
    let v1 = vec![binding_op(e, "flow", "q1"), tag_op(e, "duty")];
    let prev = hashes(&v1);

    let v2 = vec![
        binding_op(e, "flow", "q2"), // changed query
        binding_op(e, "temp", "q3"), // added
                                     // "duty" tag removed
    ];
    let d = diff(&v2, &prev);
    assert_eq!(d.changed.len(), 1, "{d:?}");
    assert_eq!(d.added.len(), 1, "{d:?}");
    assert_eq!(d.removed.len(), 1, "{d:?}");
    assert_eq!(d.unchanged.len(), 0, "{d:?}");
    assert_eq!(d.removed[0], format!("tag:{}:duty", e.as_hex()));
    assert_eq!(d.added[0], format!("bind:{}:temp", e.as_hex()));
}

#[test]
fn unchanged_reload_touches_nothing() {
    let e = EntityId::from_prim_path("/A");
    let v = vec![binding_op(e, "flow", "q1")];
    let prev = hashes(&v);
    let d = diff(&v, &prev);
    assert!(d.is_empty());
    assert_eq!(d.touched(), 0);
}

#[test]
fn reloads_are_planned_slot_by_slot() {
    let slot = |key: &str, hash: &str| SlotHash { key: key.into(), hash: hash.into() };
    let prev = [slot("a", "1"), slot("b", "1"), slot("c", "1"), slot("c", "2")];
    let new = [slot("a", "1"), slot("b", "2"), slot("d", "1"), slot("d", "3")];
    // Of two with one key the later counts.
    assert_eq!(due_positions(&prev, &new), vec![1, 3]);
    assert_eq!(gone_positions(&prev, &new), vec![3]);
    let d = diff_slots(&new, &prev[..3]);
    assert_eq!((d.added, d.changed), (vec!["d".to_string()], vec!["b".to_string()]));
    assert_eq!((d.removed, d.unchanged), (vec!["c".to_string()], vec!["a".to_string()]));
}

#[test]
fn of_two_opinions_with_one_key_the_later_counts() {
    let e = EntityId::from_prim_path("/A");
    let meta = |value: &str| {
        stored(&Opinion::Meta { entity: e, key: "k".into(), value: value.into() })
    };
    let d = diff(&[tag_op(e, "t"), tag_op(e, "t")], &[]);
    assert_eq!(d.touched(), 1);
    let both = vec![meta("1"), meta("2")];
    let mut overlay = TwinOverlay::new();
    let (_, first) = overlay.apply_opinions("s", "h", &both, 0);
    assert_eq!(first.added, vec![both[0].key()]);
    assert_eq!(overlay.opinion_count("s"), 1);
    let (_, second) = overlay.apply_opinions("s", "h", &both, 1);
    assert!(second.is_empty(), "{second:?}");
    assert_eq!(second.unchanged, vec![both[0].key()]);
    let (_, third) = overlay.apply_opinions("s", "h", &both[1..], 2);
    assert!(third.is_empty(), "{third:?}");
    let (_, fourth) = overlay.apply_opinions("s", "h", &both[..1], 3);
    assert_eq!(fourth.changed, vec![both[0].key()]);
}

fn described(lsg: &Lsg) -> Vec<String> {
    let mut all: Vec<String> = lsg.entities().iter().map(|e| format!("{e:?}")).collect();
    all.extend(lsg.anchors().iter().map(|a| format!("{a:?}")));
    all.extend(lsg.edges().iter().map(|e| format!("{e:?}")));
    all
}

#[test]
fn opinions_taken_back_leave_the_index_as_it_was() {
    let mut lsg = pump_world();
    let before = described(&lsg);
    let revision = lsg.revision();
    let e = lsg.by_asset_tag("PUMP-01").unwrap().id;
    let other = lsg.by_asset_tag("TANK-A").unwrap().id;
    let a = AnchorId::new(e, "out");
    let g = EdgeId::new((e, "out"), (other, "in"));
    let binding = |entity: EntityId, attr: &str| binding_op(entity, attr, "q").opinion;
    let ops = vec![
        Opinion::Tag { entity: e, tag: "one".into() },
        binding(e, "heat"),
        Opinion::Tag { entity: e, tag: "two".into() },
        Opinion::Meta { entity: e, key: "maker".into(), value: "v".into() },
        binding(other, "heat"),
        binding(e, "noise"),
        Opinion::Anchor(Anchor { id: a, entity: e, name: "out".into(), pos: d3([0.0; 3]) }),
        Opinion::Edge(Edge { id: g, from: (e, "out".into()), to: (other, "in".into()) }),
    ];
    apply(&mut lsg, &ops);
    assert_ne!(described(&lsg), before);
    assert_eq!(lsg.entities_binding("heat"), vec![e, other]);
    let touched = unapply(&mut lsg, &ops);
    assert_eq!(touched.len(), 2);
    assert_eq!(described(&lsg), before);
    assert!(lsg.entities_binding("heat").is_empty());
    assert_eq!(lsg.revision(), revision + 2);
}

/// A pump with tags, metadata and bindings of its own, an anchor and an edge.
fn authored_world() -> (Lsg, EntityId, AnchorId, EdgeId) {
    let mut lsg = pump_world();
    let e = lsg.by_asset_tag("PUMP-01").unwrap().id;
    let mut pump = lsg.get(e).unwrap().clone();
    pump.tags = vec!["duty".into(), "wet".into()];
    pump.vf.insert("maker".into(), VfValue::List(vec![VfItem::Other("7".into())]));
    pump.bindings = ["flow", "heat"]
        .iter()
        .map(|attr| match binding_op(e, attr, "authored").opinion {
            Opinion::Binding { binding, .. } => binding,
            _ => unreachable!(),
        })
        .collect();
    lsg.insert(pump);
    let a = AnchorId::new(e, "out");
    let g = EdgeId::new((e, "out"), (e, "in"));
    lsg.insert_anchor(Anchor { id: a, entity: e, name: "out".into(), pos: d3([1.0; 3]) });
    lsg.insert_edge(Edge { id: g, from: (e, "out".into()), to: (e, "in".into()) });
    (lsg, e, a, g)
}

#[test]
fn what_opinions_override_stands_again_when_they_go() {
    let (mut lsg, e, a, g) = authored_world();
    let before = described(&lsg);
    let other = lsg.by_asset_tag("TANK-A").unwrap().id;
    let meta = |key: &str| Opinion::Meta { entity: e, key: key.into(), value: "v".into() };
    let ops = vec![
        binding_op(e, "noise", "q").opinion,
        binding_op(e, "flow", "q").opinion,
        binding_op(other, "flow", "q").opinion,
        Opinion::Tag { entity: e, tag: "new".into() },
        Opinion::Tag { entity: e, tag: "duty".into() },
        meta("maker"),
        meta("year"),
        Opinion::Anchor(Anchor { id: a, entity: other, name: "x".into(), pos: d3([0.0; 3]) }),
        Opinion::Edge(Edge { id: g, from: (other, "x".into()), to: (e, "y".into()) }),
    ];
    apply(&mut lsg, &ops);
    let pump = lsg.get(e).unwrap();
    assert_eq!(pump.vf.get("maker"), Some(&VfValue::Text("v".into())));
    assert_eq!(pump.bindings[0].query, "q");
    assert_eq!(pump.tags, vec!["duty".to_string(), "wet".to_string(), "new".to_string()]);
    assert_eq!(lsg.anchors()[0].name, "x");
    unapply(&mut lsg, &ops);
    assert_eq!(described(&lsg), before);
    assert_eq!(lsg.entities_binding("flow").len(), 1);
    assert!(lsg.entities_binding("noise").is_empty());
}

#[test]
fn a_removed_slot_ends_at_its_authored_value() {
    let (mut lsg, e, _, _) = authored_world();
    let before = described(&lsg);
    let of = |value: &str| {
        vec![
            stored(&Opinion::Meta { entity: e, key: "maker".into(), value: value.into() }),
            tag_op(e, "wet"),
            binding_op(e, "heat", value),
        ]
    };
    let (v1, v2) = (of("1"), of("2"));
    reconcile(&mut lsg, &[], &v1);
    // An edit of an opinion does not make the first one the authored value.
    reconcile(&mut lsg, &v1, &v2);
    assert_eq!(lsg.get(e).unwrap().bindings[1].query, "2");
    assert_eq!(lsg.get(e).unwrap().vf.get("maker"), Some(&VfValue::Text("2".into())));
    let touched = reconcile(&mut lsg, &v2, &[]);
    assert_eq!(touched.items(), vec![e.0]);
    assert_eq!(described(&lsg), before);
    // Opinions that were never applied here override nothing.
    let revision = lsg.revision();
    assert!(reconcile(&mut lsg, &v1, &[]).is_empty());
    assert_eq!(described(&lsg), before);
    assert_eq!(lsg.revision(), revision);
}

#[test]
fn an_entity_that_is_entered_again_brings_its_own_values() {
    let (mut lsg, e, _, _) = authored_world();
    let op = vec![Opinion::Meta { entity: e, key: "maker".into(), value: "v".into() }];
    apply(&mut lsg, &op);
    let mut pump = lsg.get(e).unwrap().clone();
    pump.vf.insert("maker".into(), VfValue::Text("anew".into()));
    lsg.insert(pump);
    assert!(unapply(&mut lsg, &op).is_empty());
    assert_eq!(lsg.get(e).unwrap().vf.get("maker"), Some(&VfValue::Text("anew".into())));
}

#[test]
fn parsing_stops_at_the_first_end_of_input() {
    let (mut toks, diags) = lex("scene \"s\" part A { tag \"t\" }");
    let (more, _) = lex("part B { }");
    toks.extend(more);
    let (scene, diags) = parse(toks, diags);
    assert!(diags.is_empty());
    assert_eq!(scene.unwrap().parts.len(), 1);
}

#[test]
fn opinion_keys_name_their_slots() {
    let e = EntityId(0xab);
    let hex = "00000000000000ab";
    assert_eq!(tag_op(e, "t").key(), format!("tag:{hex}:t"));
    let meta = Opinion::Meta { entity: e, key: "k".into(), value: "v".into() };
    assert_eq!(meta.key(), format!("meta:{hex}:k"));
    assert_eq!(meta.kind(), "meta");
    let a = AnchorId::new(e, "out");
    let anchor = Opinion::Anchor(Anchor { id: a, entity: e, name: "out".into(), pos: d3([0.0; 3]) });
    assert_eq!(anchor.key(), format!("anchor:{}", a.as_hex()));
    assert_eq!(anchor.kind(), "anchor");
    assert_eq!(anchor.primary_entity(), e);
    let g = EdgeId::new((e, "out"), (EntityId(1), "in"));
    let edge = Opinion::Edge(Edge { id: g, from: (e, "out".into()), to: (EntityId(1), "in".into()) });
    assert_eq!(edge.key(), format!("edge:{}", g.as_hex()));
    assert_eq!(edge.primary_entity(), e);
}

#[test]
fn content_hash_is_sha256() {
    let op = StoredOpinion {
        opinion: Opinion::Tag { entity: EntityId(1), tag: "t".into() },
        payload_json: "abc".into(),
    };
    assert_eq!(
        op.content_hash(),
        "ba7816bf8f01cfea414140de5dae2223b00361a396177a9cb410ff61f20015ad"
    );
    assert_eq!(
        content_hash(b""),
        "e3b0c44298fc1c149afbf4c8996fb92427ae41e4649b934ca495991b7852b855"
    );
}

#[test]
fn taking_an_opinion_back_restores_the_scene() {
    let mut lsg = scene_lsg();
    let e = EntityId::from_prim_path("/PS/Pump_01");
    let ops: Vec<Opinion> =
        [binding_op(e, "flow", "q"), tag_op(e, "duty")].iter().map(|s| s.opinion.clone()).collect();
    let touched = apply(&mut lsg, &ops);
    assert_eq!(touched.items(), vec![e.0]);
    assert_eq!(lsg.entities_binding("flow"), vec![e]);
    let touched = unapply(&mut lsg, &ops);
    assert_eq!(touched.items(), vec![e.0]);
    let pump = lsg.get(e).unwrap();
    assert!(pump.tags.is_empty() && pump.bindings.is_empty());
    assert!(lsg.entities_binding("flow").is_empty());
}

#[test]
fn opinions_persist_and_reload_is_a_minimal_patch() {
    let mut ov = TwinOverlay::new();
    let e = EntityId::from_prim_path("/PS/Pump_01");
    let src = "pump.flow3d";

    let v1 = vec![binding_op(e, "flow", "q1"), tag_op(e, "duty")];
    let (_rev1, d1) = ov.apply_opinions(src, "hash1", &v1, 1);
    assert_eq!(d1.added.len(), 2);
    assert_eq!(ov.opinion_count(src), 2);

    // Reload identical source: zero touched, rows unchanged.
    let (_rev2, d2) = ov.apply_opinions(src, "hash1", &v1, 2);
    assert!(d2.is_empty(), "{d2:?}");
    assert_eq!(d2.touched(), 0);

    // Change one binding + drop the tag: exactly one changed, one removed.
    let v3 = vec![binding_op(e, "flow", "q2")];
    let (rev3, d3) = ov.apply_opinions(src, "hash3", &v3, 3);
    assert_eq!(d3.changed.len(), 1, "{d3:?}");
    assert_eq!(d3.removed.len(), 1, "{d3:?}");
    assert_eq!(ov.opinion_count(src), 1);

    // Reloaded opinions round-trip.
    let loaded = ov.load_opinions(src);
    assert_eq!(loaded.len(), 1);
    assert!(
        matches!(&loaded[0].opinion, Opinion::Binding { binding, .. } if binding.query == "q2")
    );

    let stamp = ov.compile_stamp(src).unwrap();
    assert_eq!(stamp.source_hash, "hash3");
    assert_eq!(stamp.opinion_count, 1);
    assert_eq!(stamp.revision, rev3);
    assert_eq!(stamp.at_ms, 3);
    assert!(ov.compile_stamp("other").is_none());
    assert_eq!(ov.opinion_count("other"), 0);
}

// Reloads over a world.

/// A tiny pump-station world (assembly + two pumps + one tank) near the origin.
fn pump_world() -> Lsg {
    let nd = r#"
{"primPath":"/PS","kind":"assembly","vf":{"class":"facility"}}
{"primPath":"/PS/Pump_01","kind":"component","parent":"/PS","transform":{"translate":[0,0,0]},"extentsHint":[[-0.5,-0.5,-0.5],[0.5,0.5,0.5]],"vf":{"assetTag":"PUMP-01"}}
{"primPath":"/PS/Pump_02","kind":"component","parent":"/PS","transform":{"translate":[0,3,0]},"extentsHint":[[-0.5,2.5,-0.5],[0.5,3.5,0.5]],"vf":{"assetTag":"PUMP-02"}}
{"primPath":"/PS/Tank_A","kind":"component","parent":"/PS","transform":{"translate":[10,0,0]},"extentsHint":[[9.5,-0.5,-0.5],[10.5,0.5,0.5]],"vf":{"assetTag":"TANK-A"}}
"#;
    build_from_ndjson(nd)
}

const SRC_V1: &str = r#"
scene "PS"
part PUMP-01 {
  tag "duty"
  anchor discharge at (0.9, 0, 0)
  bind efficiency metric("pump_eff{asset=\"PUMP-01\"}") unit "pct"
}
part TANK-A {
  anchor inlet at (0, 0, 4)
}
pipe PUMP-01.discharge -> TANK-A.inlet
"#;

// Same as V1 but PUMP-01's efficiency query changes (one edited opinion).
const SRC_V2: &str = r#"
scene "PS"
part PUMP-01 {
  tag "duty"
  anchor discharge at (0.9, 0, 0)
  bind efficiency metric("pump_eff_v2{asset=\"PUMP-01\"}") unit "pct"
}
part TANK-A {
  anchor inlet at (0, 0, 4)
}
pipe PUMP-01.discharge -> TANK-A.inlet
"#;

#[test]
fn diagnostics_have_line_column_and_caret() {
    let lsg = pump_world();
    // `unit` with no following string on line 6.
    let src = "scene \"PS\"\npart PUMP-01 {\n  tag \"duty\"\n  bind flow metric(\"m{asset=\\\"PUMP-01\\\"}\") unit\n}\n";
    let r = compile_source(src, &lsg);
    assert!(r.has_errors());
    let err = r.diagnostics.iter().find(|d| d.is_error()).unwrap();
    // The missing `unit` argument is caught at the next token (`}` on line 5).
    assert_eq!(err.span.line, 5, "diag: {err:?}");
    let rendered = render(err, src, "t.flow3d");
    assert!(
        rendered.contains(&format!("t.flow3d:{}:{}", err.span.line, err.span.col)),
        "{rendered}"
    );
    assert!(rendered.contains('^'), "{rendered}");
}

#[test]
fn stable_ids_survive_unchanged_reload() {
    let lsg = pump_world();
    let a = compile_source(SRC_V1, &lsg);
    let b = compile_source(SRC_V1, &lsg);
    assert!(!a.has_errors() && !b.has_errors());

    // Opinion keys (which embed entity/anchor/edge ids) are identical.
    let sorted_keys = |r: &CompileResult| {
        let mut v: Vec<String> = r.opinions.iter().map(|o| o.key()).collect();
        v.sort();
        v
    };
    assert_eq!(sorted_keys(&a), sorted_keys(&b));

    // The anchor id is a pure function of (entity, name).
    let pump = EntityId::from_prim_path("/PS/Pump_01");
    let want = AnchorId::new(pump, "discharge");
    assert!(a.opinions.iter().any(|o| matches!(o, Opinion::Anchor(an) if an.id == want)));

    // Diff of identical compiles is empty.
    let d = diff(&all_stored(&b.opinions), &hashes(&all_stored(&a.opinions)));
    assert!(d.is_empty(), "{d:?}");
}

#[test]
fn incremental_reload_is_a_minimal_patch() {
    let lsg = pump_world();
    let v1 = compile_source(SRC_V1, &lsg).opinions;
    let v2 = compile_source(SRC_V2, &lsg).opinions;

    let d = diff(&all_stored(&v2), &hashes(&all_stored(&v1)));
    assert_eq!(d.added.len(), 0, "{d:?}");
    assert_eq!(d.removed.len(), 0, "{d:?}");
    assert_eq!(d.changed.len(), 1, "only PUMP-01's binding changed: {d:?}");

    // Exactly one entity is touched by the reload.
    let changed_ops: Vec<Opinion> =
        v2.iter().filter(|o| d.changed.contains(&o.key())).cloned().collect();
    let touched = touched_entities(&changed_ops);
    assert_eq!(touched.len(), 1);
    assert!(touched.contains(EntityId::from_prim_path("/PS/Pump_01").0));
}

#[test]
fn reload_does_not_storm_the_rsg() {
    let mut lsg = pump_world();
    let v1 = all_stored(&compile_source(SRC_V1, &lsg).opinions);
    reconcile(&mut lsg, &[], &v1);

    // Camera AOI covering both pumps (origin + (0,3,0)), not the far tank.
    let idx = index(&lsg);
    let mut im = InterestManager::new();
    im.upsert(Subscription::spatial(1, sphere([0.0, 1.5, 0.0], 3.0), 1000)).unwrap();
    let mut rsg = Rsg::new(2);
    let mut cache = PayloadCache::new(StubPayloadLoader);
    let t0 = evaluate(&mut im, &lsg, &idx);
    rsg.apply(&t0, &lsg, &mut cache, 0).unwrap();
    let active_before = rsg.len();
    assert!(active_before >= 2, "both pumps active");

    // Reload the edited DSL as a minimal in-place patch.
    let v2 = all_stored(&compile_source(SRC_V2, &lsg).opinions);
    let touched = reconcile(&mut lsg, &v1, &v2);
    assert_eq!(touched.len(), 1);

    // Re-evaluate the SAME interest manager: no churn (bindings don't move
    // extents, ids are stable, patch is in place).
    let idx2 = index(&lsg);
    let t1 = evaluate(&mut im, &lsg, &idx2);
    assert_eq!(t1.activated.len(), 0, "no re-activation storm");
    assert_eq!(t1.deactivated.len(), 0, "no de-activation storm");
    rsg.apply(&t1, &lsg, &mut cache, 1).unwrap();
    assert_eq!(rsg.len(), active_before, "|RSG| stable across reload");
}

#[test]
fn publishing_again_touches_nothing() {
    let mut lsg = pump_world();
    let mut overlay = TwinOverlay::new();
    let v1 = all_stored(&compile_source(SRC_V1, &lsg).opinions);
    let first = publish(&mut lsg, &mut overlay, "t", "h1", &v1, 1);
    assert_eq!(first.diff.added.len(), v1.len());
    assert_eq!(first.touched.len(), 2);
    let revision = lsg.revision();
    let again = publish(&mut lsg, &mut overlay, "t", "h1", &v1, 2);
    assert!(again.diff.is_empty() && again.touched.is_empty());
    assert_eq!(again.revision, first.revision + 1);
    assert_eq!(lsg.revision(), revision);
    let v2 = all_stored(&compile_source(SRC_V2, &lsg).opinions);
    let edited = publish(&mut lsg, &mut overlay, "t", "h2", &v2, 3);
    assert_eq!(edited.diff.changed.len(), 1);
    assert_eq!(edited.touched.len(), 1);

    // What is stored fills a fresh overlay again.
    let mut back = TwinOverlay::restore(overlay.revision());
    for row in overlay.rows("t").unwrap().iter().rev() {
        let row = OpinionRow {
            key: row.key.clone(),
            hash: row.hash.clone(),
            stored: row.stored.clone(),
            revision: row.revision,
        };
        back.restore_row("t", row);
    }
    back.restore_stamp("t", overlay.compile_stamp("t").unwrap().clone());
    assert_eq!(format!("{:?}", back.rows("t")), format!("{:?}", overlay.rows("t")));
    assert_eq!(back.compile_stamp("t").unwrap().source_hash, "h2");
}

#[test]
fn a_storm_is_more_transitions_than_touched_entities() {
    let pair = (1, EntityId(7));
    let t = Transitions { activated: vec![pair], deactivated: vec![pair, pair] };
    assert!(stormed(&t, 2));
    assert!(!stormed(&t, 3));
}

#[test]
fn bindings_are_stored_as_bindings_not_values() {
    let mut lsg = pump_world();
    let v1 = all_stored(&compile_source(SRC_V1, &lsg).opinions);
    reconcile(&mut lsg, &[], &v1);

    let pump = lsg.by_asset_tag("PUMP-01").unwrap();
    let b = pump
        .bindings
        .iter()
        .find(|b| b.attribute == "efficiency")
        .expect("efficiency binding applied to the LSG");
    // A declarative descriptor (how to resolve), never a value.
    assert_eq!(b.query, "pump_eff{asset=\"PUMP-01\"}");
    assert_eq!(b.source_id, "victoriametrics");
    assert_eq!(b.unit, "pct");
    // Serialized opinion carries the query, not a numeric reading.
    let json = &v1[0].payload_json;
    assert!(!json.contains("\"value\""), "opinions must not carry live values: {json}");
}

#[test]
fn compiling_never_writes_vendor_usd() {
    // A full compile, persist and reconcile: opinions land in the overlay and on
    // the scene, and every reference to vendor geometry stays as it was.
    let mut lsg = pump_world();
    let geometry = |lsg: &Lsg| -> Vec<(String, Transform, Aabb, bool)> {
        lsg.entities()
            .iter()
            .map(|e| (e.prim_path.clone(), e.transform_default, e.extents, e.geom_ref.is_some()))
            .collect()
    };
    let before = geometry(&lsg);
    let compiled = compile_source(SRC_V1, &lsg);
    assert!(!compiled.has_errors());

    let mut ov = TwinOverlay::new();
    let opinions = all_stored(&compiled.opinions);
    let (_rev, _diff) = ov.apply_opinions("t.flow3d", "h1", &opinions, 0);
    reconcile(&mut lsg, &[], &opinions);
    assert_eq!(ov.opinion_count("t.flow3d"), opinions.len());

    assert!(before == geometry(&lsg), "vendor geometry must remain as it was");
}
