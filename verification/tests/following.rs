//! Following the documents of an archive: references, tilesets and nodes.
use tile_clipper::i3s::{
    add_node_page, is_in_node_pages, is_node_page, node_document_path, page_ids_fit,
    parse_node_bounds, root_node_id, strip_gz, NodeBounds,
};
use tile_clipper::json::{Json, JsonNumber, Member};
use tile_clipper::keepset::{expand_i3s_keep_set, is_kept_file};
use tile_clipper::nodes::NodeTable;
use tile_clipper::tileset::{filter_tileset, tile_intersects, Extent};
use tile_clipper::traversal::{filter_i3s_scenelayer, find_start};
use tile_clipper::uri::{file_name, resolve_uri};
use tile_clipper::walk::{absorb_node, Frontier, TilesetWalk};
use tile_clipper::StringHashSet;

fn whole(natural: u64) -> Json {
    Json::Number { number: JsonNumber::Unsigned { natural } }
}

fn text(s: &str) -> Json {
    Json::Text { text: s.to_string() }
}

fn arr(items: Vec<Json>) -> Json {
    Json::Array { items }
}

fn obj(members: Vec<(&str, Json)>) -> Json {
    Json::Object {
        members: members
            .into_iter()
            .map(|(key, value)| Member { key: key.to_string(), value })
            .collect(),
    }
}

/// A tile with an S2 token, which the tests take for its place.
fn tile(token: &str, uri: &str, children: Vec<Json>) -> Json {
    obj(vec![
        (
            "boundingVolume",
            obj(vec![(
                "extensions",
                obj(vec![("3DTILES_bounding_volume_S2", obj(vec![("token", text(token))]))]),
            )]),
        ),
        ("content", obj(vec![("uri", text(uri))])),
        ("children", arr(children)),
    ])
}

fn token_in(extent: &Extent) -> bool {
    match extent {
        Extent::S2 { token } => token == "in",
        Extent::Region { .. } => false,
    }
}

/// The first component of a sphere is zero for the nodes that the tests keep.
fn sphere_in(bounds: &NodeBounds) -> bool {
    match bounds {
        NodeBounds::Sphere { values } => {
            matches!(values[0], Some(JsonNumber::Unsigned { natural: 0 }))
        }
        NodeBounds::Box { .. } => false,
    }
}

fn mbs(first: u64) -> Json {
    arr(vec![whole(first), whole(0), whole(0), whole(1)])
}

#[test]
fn resolved_paths_are_plain_and_stable() {
    let path = resolve_uri("a/b/doc.json", "../c/./d.bin").unwrap();
    assert_eq!(path, "a/c/d.bin");
    assert_eq!(resolve_uri("", &path).unwrap(), path);
    assert_eq!(resolve_uri("doc.json", "a/b.bin").unwrap(), "a/b.bin");
    assert!(resolve_uri("doc.json", "/etc/hosts").is_none());
}

#[test]
fn file_names_are_the_last_component() {
    assert_eq!(file_name("./nodes/root").unwrap(), "root");
    assert_eq!(file_name("nodes/7/").unwrap(), "7");
    assert!(file_name("..").is_none());
    assert!(file_name("").is_none());
}

#[test]
fn an_s2_token_goes_before_a_region() {
    let both = obj(vec![(
        "boundingVolume",
        obj(vec![
            ("region", arr(vec![whole(0), whole(0), whole(0), whole(0)])),
            (
                "extensions",
                obj(vec![("3DTILES_bounding_volume_S2", obj(vec![("token", text("in"))]))]),
            ),
        ]),
    )]);
    assert!(tile_intersects(&both, &token_in));
    let region = obj(vec![(
        "boundingVolume",
        obj(vec![("region", arr(vec![whole(0), whole(0), whole(0), whole(0)]))]),
    )]);
    assert!(!tile_intersects(&region, &token_in));
    // Three components span no region, and what cannot be tested stays.
    let short = obj(vec![(
        "boundingVolume",
        obj(vec![("region", arr(vec![whole(0), whole(0), whole(0)]))]),
    )]);
    assert!(tile_intersects(&short, &token_in));
}

#[test]
fn clipping_twice_is_clipping_once() {
    let tileset = obj(vec![(
        "root",
        tile(
            "out",
            "root.glb",
            vec![
                tile("in", "a.glb", vec![tile("out", "b.glb", vec![])]),
                tile("out", "c.glb", vec![tile("in", "d.glb", vec![])]),
            ],
        ),
    )]);
    let mut keep = Vec::new();
    let once = filter_tileset(tileset, "tileset.json", &token_in, &mut keep);
    assert_eq!(keep, vec!["root.glb", "a.glb"]);
    let first = format!("{:?}", once);
    let mut again = Vec::new();
    let twice = filter_tileset(once, "tileset.json", &token_in, &mut again);
    assert_eq!(again, keep);
    assert_eq!(format!("{:?}", twice), first);
}

#[test]
fn nothing_is_pruned_where_everything_meets() {
    let everywhere = |_: &Extent| true;
    let tileset = obj(vec![(
        "root",
        tile("x", "root.glb", vec![tile("y", "../up.glb", vec![]), tile("z", "z.glb", vec![])]),
    )]);
    let before = format!("{:?}", tileset);
    let mut keep = Vec::new();
    let out = filter_tileset(tileset, "tileset.json", &everywhere, &mut keep);
    assert_eq!(format!("{:?}", out), before);
    // A link that leaves the archive is not followed.
    assert_eq!(keep, vec!["root.glb", "z.glb"]);
}

#[test]
fn documents_without_a_root_pass_through() {
    let mut keep = Vec::new();
    let out = filter_tileset(text("no tileset"), "tileset.json", &token_in, &mut keep);
    assert_eq!(out.as_text().unwrap(), "no tileset");
    assert!(keep.is_empty());
}

#[test]
fn tileset_walk_fetches_every_tileset_once() {
    let mut walk = TilesetWalk::new();
    assert_eq!(walk.next().unwrap(), "tileset.json");
    assert!(walk.next().is_none());
    walk.absorb(
        "tileset.json".to_string(),
        Json::Null,
        vec!["a.json".into(), "x.glb".into(), "a.json".into(), "b.json".into()],
    );
    assert_eq!(walk.next().unwrap(), "a.json");
    assert_eq!(walk.next().unwrap(), "b.json");
    assert!(walk.next().is_none());
    // "a.json" could not be fetched; "b.json" links back.
    walk.absorb("b.json".to_string(), Json::Null, vec!["tileset.json".into(), "y.glb".into()]);
    assert!(walk.next().is_none());
    for kept in ["tileset.json", "b.json", "x.glb", "y.glb"] {
        assert!(walk.keep_uris.contains(kept), "{kept}");
    }
    assert!(!walk.keep_uris.contains("a.json"));
    assert_eq!(walk.keep_uris.len(), 4);
    assert!(walk.documents.contains_key("b.json"));
}

#[test]
fn node_walk_goes_on_below_missed_and_unbounded_nodes() {
    let mut frontier = Frontier::new("root".to_string());
    let mut keep = StringHashSet::new();
    let mut ids = StringHashSet::new();
    assert_eq!(frontier.next().unwrap(), "root");
    let root = obj(vec![("mbs", mbs(9)), ("children", arr(vec![whole(1), text("root")]))]);
    absorb_node(
        &mut frontier,
        "root",
        "nodes/root/3dNodeIndexDocument.json.gz",
        &root,
        &sphere_in,
        &mut keep,
        &mut ids,
    );
    assert!(keep.is_empty() && ids.is_empty());
    assert_eq!(frontier.next().unwrap(), "1");
    let unbounded = obj(vec![("children", arr(vec![obj(vec![("id", text("2"))])]))]);
    absorb_node(&mut frontier, "1", "doc", &unbounded, &sphere_in, &mut keep, &mut ids);
    assert!(ids.is_empty());
    assert_eq!(frontier.next().unwrap(), "2");
    let kept = obj(vec![("mbs", mbs(0))]);
    absorb_node(&mut frontier, "2", "doc.gz", &kept, &sphere_in, &mut keep, &mut ids);
    assert!(ids.contains("2"));
    assert!(keep.contains("doc.gz"));
    assert!(keep.contains("nodes/2/3dNodeIndexDocument.json"));
    assert!(frontier.next().is_none());
}

#[test]
fn node_pages_fill_the_table() {
    let page = obj(vec![(
        "nodes",
        arr(vec![
            obj(vec![
                ("index", whole(0)),
                ("mbs", mbs(9)),
                ("children", arr(vec![whole(1), Json::Null, whole(5)])),
            ]),
            obj(vec![("index", whole(1)), ("mbs", mbs(0))]),
            obj(vec![("index", whole(2))]),
            obj(vec![("mbs", mbs(0))]),
        ]),
    )]);
    assert!(page_ids_fit(&page));
    let mut table = NodeTable::new();
    add_node_page(&mut table, &page, "nodepages/0.json.gz");
    assert!(table.contains_key("0") && table.contains_key("1"));
    assert!(table.get("2").unwrap().bounds.is_none(), "a node without bounds is taken in");
    assert_eq!(table.len(), 3, "a node without an id is not");
    let first = table.get("0").unwrap();
    assert_eq!(first.doc_filename, "nodepages/0.json");
    assert_eq!(first.containing_doc, "nodepages/0.json.gz");
    let children: Vec<&str> = first.children.iter().map(|c| c.id.as_str()).collect();
    assert_eq!(children, vec!["1", "5"]);

    let layer = obj(vec![]);
    assert_eq!(find_start(&table, &layer).unwrap(), "0");
    let mut keep = StringHashSet::new();
    let mut ids = StringHashSet::new();
    filter_i3s_scenelayer(&layer, &table, &sphere_in, &mut keep, &mut ids);
    assert!(ids.contains("1") && ids.len() == 1);
    assert!(keep.contains("nodepages/0.json") && keep.contains("nodepages/0.json.gz"));
}

#[test]
fn the_children_of_a_page_node_without_bounds_are_walked() {
    let page = obj(vec![(
        "nodes",
        arr(vec![
            obj(vec![("index", whole(0)), ("children", arr(vec![whole(1)]))]),
            obj(vec![("index", whole(1)), ("mbs", mbs(0))]),
        ]),
    )]);
    let mut table = NodeTable::new();
    add_node_page(&mut table, &page, "nodepages/0.json");
    let mut keep = StringHashSet::new();
    let mut ids = StringHashSet::new();
    filter_i3s_scenelayer(&obj(vec![]), &table, &sphere_in, &mut keep, &mut ids);
    assert!(ids.contains("1"));
    assert!(!ids.contains("0"), "what has no bounds is not kept");
    let names = ["nodes/0/geometries/0.bin", "nodes/1/geometries/0.bin"];
    expand_i3s_keep_set(&names, &ids, &mut keep);
    assert!(keep.contains("nodes/1/geometries/0.bin"));
    assert!(!keep.contains("nodes/0/geometries/0.bin"));
}

#[test]
fn a_node_without_bounds_does_not_replace_one_that_has_them() {
    let mut table = NodeTable::new();
    let bounded = obj(vec![("id", text("a")), ("mbs", mbs(0))]);
    let bare = obj(vec![("id", text("a"))]);
    add_node_page(&mut table, &bounded, "nodepages/0.json");
    add_node_page(&mut table, &bare, "nodepages/1.json");
    assert_eq!(table.get("a").unwrap().containing_doc, "nodepages/0.json");
    let mut table = NodeTable::new();
    add_node_page(&mut table, &bare, "nodepages/1.json");
    add_node_page(&mut table, &bounded, "nodepages/0.json");
    assert!(table.get("a").unwrap().bounds.is_some());
}

#[test]
fn a_page_may_be_a_single_node_with_its_own_document() {
    let mut table = NodeTable::new();
    let node = obj(vec![("id", text("n7")), ("mbs", mbs(0))]);
    add_node_page(&mut table, &node, "nodes/n7/nodepages/doc.json");
    assert_eq!(
        table.get("n7").unwrap().doc_filename,
        "nodes/n7/3dNodeIndexDocument.json"
    );
    // An id beyond the signed range is noticed.
    let huge = obj(vec![("id", whole(u64::MAX))]);
    assert!(!page_ids_fit(&huge));
}

#[test]
fn traversal_without_a_root_keeps_nothing() {
    let table = NodeTable::new();
    let mut keep = StringHashSet::new();
    let mut ids = StringHashSet::new();
    let layer = obj(vec![]);
    assert!(find_start(&table, &layer).is_none());
    filter_i3s_scenelayer(&layer, &table, &sphere_in, &mut keep, &mut ids);
    assert!(keep.is_empty() && ids.is_empty());
}

#[test]
fn traversal_ends_on_cycles() {
    let mut table = NodeTable::new();
    let page = obj(vec![(
        "nodes",
        arr(vec![
            obj(vec![("index", whole(0)), ("mbs", mbs(0)), ("children", arr(vec![whole(1)]))]),
            obj(vec![("index", whole(1)), ("mbs", mbs(0)), ("children", arr(vec![whole(0)]))]),
        ]),
    )]);
    add_node_page(&mut table, &page, "nodepages/0.json");
    let mut keep = StringHashSet::new();
    let mut ids = StringHashSet::new();
    filter_i3s_scenelayer(&obj(vec![]), &table, &sphere_in, &mut keep, &mut ids);
    assert_eq!(ids.len(), 2);
}

#[test]
fn root_ids_come_from_the_scene_layer() {
    let layer = |path: &str| obj(vec![("store", obj(vec![("rootNode", text(path))]))]);
    assert_eq!(root_node_id(&layer("./nodes/root")), "root");
    assert_eq!(root_node_id(&layer(".\\nodes\\7")), "7");
    assert_eq!(root_node_id(&obj(vec![])), "root");
    assert_eq!(root_node_id(&layer("..")), "root");
}

#[test]
fn names_of_node_files() {
    assert_eq!(node_document_path("3"), "nodes/3/3dNodeIndexDocument.json");
    assert_eq!(strip_gz("a.json.gz"), "a.json");
    assert_eq!(strip_gz("a.json"), "a.json");
    assert!(is_in_node_pages("nodepages/x.bin") && !is_node_page("nodepages/x.bin"));
    assert!(is_node_page("layers/0/nodepages/1.json.gz"));
    assert!(!is_in_node_pages("mynodepages/1.json"));
}

#[test]
fn box_bounds_need_every_part() {
    let short = obj(vec![(
        "obb",
        obj(vec![
            ("center", arr(vec![whole(1), whole(2), whole(3)])),
            ("halfSize", arr(vec![whole(1)])),
        ]),
    )]);
    assert!(parse_node_bounds(&short).is_none());
    // An mbs that is too short is not replaced by an obb.
    let both = obj(vec![
        ("mbs", arr(vec![whole(1)])),
        ("obb", arr(vec![whole(1), whole(2), whole(3), whole(4), whole(5), whole(6)])),
    ]);
    assert!(parse_node_bounds(&both).is_none());
    // A component that is no number keeps its place.
    let gap = obj(vec![("mbs", arr(vec![whole(1), text("x"), whole(3), whole(4)]))]);
    match parse_node_bounds(&gap).unwrap() {
        NodeBounds::Sphere { values } => {
            assert_eq!(values.len(), 4);
            assert!(values[1].is_none());
            assert_eq!(values[2].as_ref().unwrap().to_text(), "3");
        }
        NodeBounds::Box { .. } => panic!("a sphere is expected"),
    }
}

#[test]
fn expanding_twice_adds_nothing() {
    let mut kept = StringHashSet::new();
    kept.insert("1".to_string());
    let names = ["nodes/1/a.bin", "nodes/1/a.bin", "nodes//a.bin", "nodepages/0.json"];
    let mut keep = StringHashSet::new();
    assert_eq!(expand_i3s_keep_set(&names, &kept, &mut keep), 2);
    assert_eq!(expand_i3s_keep_set(&names, &kept, &mut keep), 0);
    let turned = ["nodepages/0.json", "nodes//a.bin", "nodes/1/a.bin"];
    assert_eq!(expand_i3s_keep_set(&turned, &kept, &mut keep), 0);
    let mut other = StringHashSet::new();
    assert_eq!(expand_i3s_keep_set(&turned, &kept, &mut other), 2);
    assert_eq!(other.len(), keep.len());
    assert!(is_kept_file("nodes/1", &kept));
    assert!(!is_kept_file("nodes//a.bin", &kept));
    assert!(!is_kept_file("sub/metadata.json", &kept));
}

#[test]
fn numbers_are_written_as_they_stand() {
    assert_eq!(JsonNumber::Unsigned { natural: u64::MAX }.to_text(), "18446744073709551615");
    assert_eq!(JsonNumber::Negative { integer: i64::MIN }.to_text(), "-9223372036854775808");
    assert_eq!(JsonNumber::Fraction { text: "1.50".into() }.to_text(), "1.50");
}
