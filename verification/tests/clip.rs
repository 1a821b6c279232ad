//! Tiles and nodes against a clip polygon.
use geo::{BoundingRect, Coord, Intersects, LineString, Polygon, Rect};
use tile_clipper::i3s::{child_id_of, parse_node_bounds, NodeBounds};
use tile_clipper::json::{Json, JsonNumber, Member};
use tile_clipper::keepset::expand_i3s_keep_set;
use tile_clipper::nodes::{ChildRef, I3SNode, NodeTable};
use tile_clipper::tileset::{filter_tileset, tile_intersects, Extent};
use tile_clipper::traversal::filter_i3s_scenelayer;
use tile_clipper::uri::resolve_uri;
use tile_clipper::StringHashSet;

/// Unit square polygon from (0,0) to (1,1) in degrees.
fn unit_polygon() -> Polygon<f64> {
    Polygon::new(
        LineString::from(vec![(0.0, 0.0), (1.0, 0.0), (1.0, 1.0), (0.0, 1.0), (0.0, 0.0)]),
        vec![],
    )
}

fn deg_to_rad(deg: f64) -> f64 {
    deg.to_radians()
}

fn rad_to_deg(rad: f64) -> f64 {
    rad * 180.0 / std::f64::consts::PI
}

fn num(value: f64) -> Json {
    Json::Number { number: JsonNumber::Fraction { text: format!("{:?}", value) } }
}

fn whole(natural: u64) -> Json {
    Json::Number { number: JsonNumber::Unsigned { natural } }
}

fn text(s: &str) -> Json {
    Json::Text { text: s.to_string() }
}

fn arr(items: Vec<Json>) -> Json {
    Json::Array { items }
}

fn nums(values: &[f64]) -> Json {
    arr(values.iter().map(|v| num(*v)).collect())
}

fn obj(members: Vec<(&str, Json)>) -> Json {
    Json::Object {
        members: members
            .into_iter()
            .map(|(key, value)| Member { key: key.to_string(), value })
            .collect(),
    }
}

fn values(slots: &[Option<JsonNumber>]) -> Vec<f64> {
    slots
        .iter()
        .map(|slot| slot.as_ref().map_or(0.0, |n| n.to_text().parse::<f64>().unwrap()))
        .collect()
}

/// Whether the extent of a tile meets the unit square.
fn in_unit(extent: &Extent) -> bool {
    match extent {
        Extent::S2 { .. } => panic!("no S2 cell is expected"),
        Extent::Region { values: slots } => {
            let v = values(slots);
            let rect = Rect::new(
                Coord { x: rad_to_deg(v[0]), y: rad_to_deg(v[1]) },
                Coord { x: rad_to_deg(v[2]), y: rad_to_deg(v[3]) },
            );
            unit_polygon().intersects(&rect)
        }
    }
}

/// The bounds of a node as the sphere around them: longitude, latitude, height and radius.
fn sphere(bounds: &NodeBounds) -> [f64; 4] {
    match bounds {
        NodeBounds::Sphere { values: slots } => {
            let v = values(slots);
            [v[0], v[1], v[2], v[3]]
        }
        NodeBounds::Box { center, half_size } => {
            let c = values(center);
            let h = values(half_size);
            [c[0], c[1], c[2], (h[0] * h[0] + h[1] * h[1] + h[2] * h[2]).sqrt()]
        }
    }
}

/// Whether the bounds of a node meet the unit square.
fn node_in_unit(bounds: &NodeBounds) -> bool {
    let mbs = sphere(bounds);
    let lon = mbs[3] / (111320.0 * mbs[1].to_radians().cos()).max(1.0);
    let lat = mbs[3] / 111320.0;
    let rect = Rect::new(
        Coord { x: mbs[0] - lon, y: mbs[1] - lat },
        Coord { x: mbs[0] + lon, y: mbs[1] + lat },
    );
    unit_polygon().bounding_rect().unwrap().intersects(&rect) && unit_polygon().intersects(&rect)
}

#[test]
fn resolve_uri_relative_forms() {
    assert_eq!(resolve_uri("tileset.json", "tiles/0.b3dm").unwrap(), "tiles/0.b3dm");
    assert_eq!(resolve_uri("sub/tileset.json", "./0.b3dm").unwrap(), "sub/0.b3dm");
    assert_eq!(
        resolve_uri("nodes/1/doc.json", "../2/geometry.bin").unwrap(),
        "nodes/2/geometry.bin"
    );
    assert_eq!(resolve_uri("a\\b\\doc.json", "c.bin").unwrap(), "a/b/c.bin");
}

#[test]
fn resolve_uri_rejects_escapes() {
    assert!(resolve_uri("tileset.json", "../outside.b3dm").is_none());
    assert!(resolve_uri("sub/doc.json", "../../outside.b3dm").is_none());
    assert!(resolve_uri("", "../escape").is_none());
}

#[test]
fn tile_intersects_region_in_and_out() {
    let inside = obj(vec![(
        "boundingVolume",
        obj(vec![(
            "region",
            nums(&[
                deg_to_rad(0.25),
                deg_to_rad(0.25),
                deg_to_rad(0.75),
                deg_to_rad(0.75),
                0.0,
                100.0,
            ]),
        )]),
    )]);
    let outside = obj(vec![(
        "boundingVolume",
        obj(vec![(
            "region",
            nums(&[deg_to_rad(5.0), deg_to_rad(5.0), deg_to_rad(6.0), deg_to_rad(6.0), 0.0, 100.0]),
        )]),
    )]);
    assert!(tile_intersects(&inside, &in_unit));
    assert!(!tile_intersects(&outside, &in_unit));
}

#[test]
fn tile_intersects_conservative_cases() {
    // box volumes and unknown volume types are kept conservatively
    assert!(tile_intersects(
        &obj(vec![("boundingVolume", obj(vec![("box", nums(&[0.0; 12]))]))]),
        &in_unit
    ));
    assert!(tile_intersects(
        &obj(vec![(
            "boundingVolume",
            obj(vec![("sphere", arr(vec![whole(0), whole(0), whole(0), whole(1)]))])
        )]),
        &in_unit
    ));
    // no boundingVolume at all -> not kept
    assert!(!tile_intersects(
        &obj(vec![("content", obj(vec![("uri", text("x.b3dm"))]))]),
        &in_unit
    ));
}

fn region_deg(w: f64, s: f64, e: f64, n: f64) -> Json {
    nums(&[deg_to_rad(w), deg_to_rad(s), deg_to_rad(e), deg_to_rad(n), 0.0, 10.0])
}

fn region_volume(w: f64, s: f64, e: f64, n: f64) -> Json {
    obj(vec![("region", region_deg(w, s, e, n))])
}

#[test]
fn filter_tileset_prunes_children_and_collects_uris() {
    let tileset = obj(vec![(
        "root",
        obj(vec![
            ("boundingVolume", region_volume(-2.0, -2.0, 3.0, 3.0)),
            ("content", obj(vec![("uri", text("root.b3dm"))])),
            (
                "children",
                arr(vec![
                    obj(vec![
                        ("boundingVolume", region_volume(0.2, 0.2, 0.8, 0.8)),
                        ("content", obj(vec![("uri", text("tiles/in.b3dm"))])),
                        ("children", arr(vec![])),
                    ]),
                    obj(vec![
                        ("boundingVolume", region_volume(5.0, 5.0, 6.0, 6.0)),
                        ("content", obj(vec![("uri", text("tiles/out.b3dm"))])),
                        ("children", arr(vec![])),
                    ]),
                    obj(vec![
                        ("boundingVolume", region_volume(0.0, 0.0, 1.0, 0.5)),
                        (
                            "contents",
                            arr(vec![
                                obj(vec![("uri", text("tiles/multi1.glb"))]),
                                obj(vec![("uri", text("sub/nested-tileset.json"))]),
                            ]),
                        ),
                    ]),
                ]),
            ),
        ]),
    )]);
    let mut keep = Vec::new();
    let out = filter_tileset(tileset, "tileset.json", &in_unit, &mut keep);
    let children = out.get("root").unwrap().get("children").unwrap().as_items().unwrap();
    assert_eq!(children.len(), 2, "non-intersecting child must be pruned");
    assert!(keep.contains(&"root.b3dm".to_string()));
    assert!(keep.contains(&"tiles/in.b3dm".to_string()));
    assert!(!keep.contains(&"tiles/out.b3dm".to_string()));
    assert!(keep.contains(&"tiles/multi1.glb".to_string()));
    assert!(keep.contains(&"sub/nested-tileset.json".to_string()));
}

#[test]
fn filter_tileset_supports_pre10_content_url() {
    let tileset = obj(vec![
        ("asset", obj(vec![("version", text("0.0"))])),
        (
            "root",
            obj(vec![
                ("boundingVolume", region_volume(-1.0, -1.0, 2.0, 2.0)),
                ("content", obj(vec![("batchSize", whole(1)), ("url", text("0/0/0.b3dm"))])),
                (
                    "children",
                    arr(vec![obj(vec![
                        ("boundingVolume", region_volume(0.2, 0.2, 0.8, 0.8)),
                        ("content", obj(vec![("batchSize", whole(1)), ("url", text("1/1/0.b3dm"))])),
                        ("children", arr(vec![])),
                    ])]),
                ),
            ]),
        ),
    ]);
    let mut keep = Vec::new();
    filter_tileset(tileset, "tileset.json", &in_unit, &mut keep);
    assert!(keep.contains(&"0/0/0.b3dm".to_string()));
    assert!(keep.contains(&"1/1/0.b3dm".to_string()));
}

#[test]
fn filter_tileset_root_kept_even_without_intersection_test() {
    // The root is never dropped: clipping only prunes below it.
    let tileset = obj(vec![(
        "root",
        obj(vec![
            ("boundingVolume", region_volume(50.0, 50.0, 51.0, 51.0)),
            ("content", obj(vec![("uri", text("root.b3dm"))])),
            ("children", arr(vec![])),
        ]),
    )]);
    let mut keep = Vec::new();
    let out = filter_tileset(tileset, "tileset.json", &in_unit, &mut keep);
    let uri = out.get("root").unwrap().get("content").unwrap().get("uri").unwrap();
    assert!(uri.as_text().is_some());
    assert!(keep.contains(&"root.b3dm".to_string()));
}

fn node(id: &str, lon: f64, lat: f64, radius_m: f64, children: &[&str]) -> I3SNode {
    I3SNode {
        id: id.to_string(),
        doc_filename: format!("nodes/{id}/3dNodeIndexDocument.json"),
        containing_doc: format!(
            "nodepages/{}.json",
            id.parse::<u64>().map(|n| n / 64).unwrap_or(0)
        ),
        bounds: Some(NodeBounds::Sphere {
            values: [lon, lat, 0.0, radius_m]
                .iter()
                .map(|v| Some(JsonNumber::Fraction { text: format!("{:?}", v) }))
                .collect(),
        }),
        children: children.iter().map(|c| ChildRef { id: c.to_string() }).collect(),
    }
}

#[test]
fn i3s_traversal_keeps_intersecting_and_descends_through_missed_parents() {
    let mut all_nodes = NodeTable::new();
    // Root far outside the polygon, but its child sits inside: traversal must not
    // spatially cull the child just because the parent missed.
    all_nodes.insert("0".to_string(), node("0", 50.0, 50.0, 10.0, &["1", "2"]));
    all_nodes.insert("1".to_string(), node("1", 0.5, 0.5, 100.0, &[]));
    all_nodes.insert("2".to_string(), node("2", 30.0, 30.0, 10.0, &[]));

    let scenelayer = obj(vec![("store", obj(vec![("rootNode", text("./nodes/root"))]))]);
    let mut keep_uris = StringHashSet::new();
    let mut kept_ids = StringHashSet::new();
    filter_i3s_scenelayer(&scenelayer, &all_nodes, &node_in_unit, &mut keep_uris, &mut kept_ids);

    assert!(
        kept_ids.contains("1"),
        "in-polygon child of an out-of-polygon parent must be kept"
    );
    assert!(!kept_ids.contains("2"));
    assert!(keep_uris.contains("nodes/1/3dNodeIndexDocument.json"));
}

#[test]
fn i3s_prefers_node_page_root_zero() {
    let mut all_nodes = NodeTable::new();
    all_nodes.insert("0".to_string(), node("0", 0.5, 0.5, 50.0, &[]));
    // A legacy "root" node also exists; "0" must win for 1.7+ node-page layouts.
    all_nodes.insert("root".to_string(), node("0", 0.5, 0.5, 50.0, &[]));
    let scenelayer = obj(vec![("store", obj(vec![("rootNode", text("./nodes/root"))]))]);
    let mut keep_uris = StringHashSet::new();
    let mut kept_ids = StringHashSet::new();
    filter_i3s_scenelayer(&scenelayer, &all_nodes, &node_in_unit, &mut keep_uris, &mut kept_ids);
    assert!(kept_ids.contains("0"));
}

#[test]
fn parse_node_bounds_reads_mbs_and_both_obb_forms() {
    // I3S 1.6: mbs = [lon, lat, z, radius_m]
    let mbs =
        parse_node_bounds(&obj(vec![("mbs", nums(&[10.0, 20.0, 5.0, 100.0]))])).unwrap();
    assert_eq!(sphere(&mbs), [10.0, 20.0, 5.0, 100.0]);

    // I3S 1.7+ obb as an object: radius is the half-diagonal of the box.
    let obb_obj = parse_node_bounds(&obj(vec![(
        "obb",
        obj(vec![("center", nums(&[1.0, 2.0, 3.0])), ("halfSize", nums(&[3.0, 4.0, 12.0]))]),
    )]))
    .unwrap();
    let obb_obj = sphere(&obb_obj);
    assert_eq!(&obb_obj[0..3], &[1.0, 2.0, 3.0]);
    assert!((obb_obj[3] - 13.0).abs() < 1e-9, "half-diagonal of 3/4/12 is 13");

    // obb as a flat array carries the same values positionally.
    let obb_arr =
        parse_node_bounds(&obj(vec![("obb", nums(&[1.0, 2.0, 3.0, 3.0, 4.0, 12.0]))])).unwrap();
    assert_eq!(obb_obj, sphere(&obb_arr));
}

#[test]
fn parse_node_bounds_rejects_missing_or_short_bounds() {
    assert!(parse_node_bounds(&obj(vec![])).is_none());
    assert!(parse_node_bounds(&obj(vec![("mbs", nums(&[1.0, 2.0]))])).is_none());
    assert!(parse_node_bounds(&obj(vec![("obb", nums(&[1.0, 2.0, 3.0]))])).is_none());
    assert!(parse_node_bounds(&obj(vec![(
        "obb",
        obj(vec![("center", nums(&[1.0, 2.0, 3.0]))])
    )]))
    .is_none());
}

#[test]
fn child_id_of_reads_every_reference_shape() {
    assert_eq!(child_id_of(&whole(42)).unwrap(), "42");
    assert_eq!(child_id_of(&text("root")).unwrap(), "root");
    assert_eq!(child_id_of(&obj(vec![("id", text("1-2-3"))])).unwrap(), "1-2-3");
    assert_eq!(child_id_of(&obj(vec![("index", whole(7))])).unwrap(), "7");
    assert!(child_id_of(&obj(vec![("nothing", whole(1))])).is_none());
    assert!(child_id_of(&Json::Null).is_none());
}

#[test]
fn expand_keeps_resources_of_kept_nodes_only() {
    let mut kept = StringHashSet::new();
    kept.insert("1".to_string());
    let names = [
        "nodes/1/3dNodeIndexDocument.json",
        "nodes/1/geometries/0.bin",
        "nodes/1/textures/0_0.jpg",
        "nodes/1/shared/sharedResource.json",
        "nodes/2/geometries/0.bin",
        "nodepages/0.json",
        "statistics/summary.json",
        "metadata.json",
        "3dSceneLayer.json",
    ];
    let mut keep_uris = StringHashSet::new();
    let added = expand_i3s_keep_set(&names, &kept, &mut keep_uris);

    assert!(keep_uris.contains("nodes/1/geometries/0.bin"));
    assert!(keep_uris.contains("nodes/1/textures/0_0.jpg"));
    assert!(keep_uris.contains("nodes/1/shared/sharedResource.json"));
    assert!(
        !keep_uris.contains("nodes/2/geometries/0.bin"),
        "resources of dropped nodes must not be kept"
    );
    assert!(keep_uris.contains("nodepages/0.json"), "node pages are always kept");
    assert!(keep_uris.contains("statistics/summary.json"));
    assert!(keep_uris.contains("metadata.json"));
    assert!(
        !keep_uris.contains("3dSceneLayer.json"),
        "scene layer is kept by the caller, not the expansion"
    );
    assert_eq!(added, keep_uris.len());
}

#[test]
fn expand_handles_nested_layer_prefixes() {
    let mut kept = StringHashSet::new();
    kept.insert("7".to_string());
    let names = [
        "layers/0/nodes/7/geometries/0.bin",
        "layers/0/nodes/8/geometries/0.bin",
        "layers/0/nodepages/0.json",
    ];
    let mut keep_uris = StringHashSet::new();
    expand_i3s_keep_set(&names, &kept, &mut keep_uris);
    assert!(keep_uris.contains("layers/0/nodes/7/geometries/0.bin"));
    assert!(!keep_uris.contains("layers/0/nodes/8/geometries/0.bin"));
    assert!(keep_uris.contains("layers/0/nodepages/0.json"));
}
