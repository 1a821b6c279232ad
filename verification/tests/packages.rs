//! Package tilesets: which archives are clipped, and how the package is rewritten.
use tile_clipper::json::{Json, JsonNumber, Member};
use tile_clipper::package::{
    archive_key, can_take_region, decide_children, package_children, rewrite_package, split_key,
    ChildDecision, PackageRun, RootRegion,
};
use tile_clipper::tileset::Extent;

fn whole(natural: u64) -> Json {
    Json::Number { number: JsonNumber::Unsigned { natural } }
}

fn text(s: &str) -> Json {
    Json::Text { text: s.to_string() }
}

fn arr(items: Vec<Json>) -> Json {
    Json::Array { items }
}

fn obj(members: Vec<(&str, Json)>) -> Json {
    Json::Object {
        members: members
            .into_iter()
            .map(|(key, value)| Member { key: key.to_string(), value })
            .collect(),
    }
}

/// A child whose region starts with `west`.
fn child(uri: &str, west: u64) -> Json {
    obj(vec![
        (
            "boundingVolume",
            obj(vec![("region", arr(vec![whole(west), whole(0), whole(0), whole(0)]))]),
        ),
        ("content", obj(vec![("uri", text(uri))])),
    ])
}

/// Regions that start with zero meet the polygon.
fn west_is_zero(extent: &Extent) -> bool {
    match extent {
        Extent::Region { values } => {
            matches!(values[0], Some(JsonNumber::Unsigned { natural: 0 }))
        }
        Extent::S2 { .. } => false,
    }
}

fn sample() -> Vec<Json> {
    vec![
        child("a/one.3tz", 0),
        child("./a/one.3tz", 0),
        child("../outside.3tz", 0),
        child("two.slpk", 9),
        child("tileset.json", 0),
        obj(vec![("name", text("no content"))]),
        obj(vec![
            ("boundingVolume", obj(vec![("box", arr(vec![]))])),
            ("content", obj(vec![("url", text("three.spk"))])),
        ]),
    ]
}

fn package(children: Vec<Json>) -> Json {
    obj(vec![
        ("asset", obj(vec![])),
        (
            "root",
            obj(vec![
                ("boundingVolume", obj(vec![("region", arr(vec![whole(1)]))])),
                ("children", arr(children)),
            ]),
        ),
    ])
}

#[test]
fn keys_are_split_at_the_last_slash() {
    let split = split_key("data/area/tileset.json");
    assert_eq!((split.0.as_str(), split.1.as_str()), ("data/area/", "tileset.json"));
    let split = split_key("tileset.json");
    assert_eq!((split.0.as_str(), split.1.as_str()), ("", "tileset.json"));
    assert_eq!(archive_key("data/area/", "a/one.3tz"), "data/area/a/one.3tz");
}

#[test]
fn packages_without_children_are_refused() {
    let message = package_children(&obj(vec![("root", obj(vec![]))])).unwrap_err();
    assert_eq!(message, "Package tileset has no root.children to follow");
    assert_eq!(package_children(&package(vec![])).unwrap().len(), 0);
}

#[test]
fn each_child_gets_its_decision() {
    let decisions = decide_children(&sample(), &west_is_zero);
    assert_eq!(decisions.len(), 7);
    match &decisions[0] {
        ChildDecision::Clip { child } => {
            assert_eq!((child.index, child.uri.as_str()), (0, "a/one.3tz"));
            assert_eq!(child.region.as_ref().unwrap().len(), 4);
        }
        _ => panic!("the first archive is clipped"),
    }
    assert!(matches!(&decisions[1], ChildDecision::Duplicate { uri } if uri == "a/one.3tz"));
    assert!(matches!(&decisions[2], ChildDecision::Escapes { uri } if uri == "../outside.3tz"));
    assert!(matches!(&decisions[3], ChildDecision::Misses { uri } if uri == "two.slpk"));
    assert!(matches!(&decisions[4], ChildDecision::NotArchive { uri } if uri == "tileset.json"));
    assert!(matches!(&decisions[5], ChildDecision::NoContent));
    match &decisions[6] {
        ChildDecision::Clip { child } => {
            assert_eq!((child.index, child.uri.as_str()), (6, "three.spk"));
            assert!(child.region.is_none());
        }
        _ => panic!("a box cannot be tested, so the archive is clipped"),
    }
}

#[test]
fn surviving_children_and_the_root_take_their_new_regions() {
    let children = vec![child("one.3tz", 0), child("two.3tz", 0), child("tileset.json", 5)];
    let decisions = decide_children(&children, &west_is_zero);
    let mut run = PackageRun::new(&decisions);
    assert_eq!(run.root_region(), RootRegion::NothingKept);
    run.clipped(0, Some(arr(vec![whole(42)])));
    run.failed();
    assert_eq!(run.root_region(), RootRegion::Union);
    assert_eq!((run.count_kept(true), run.count_kept(false)), (1, 0));
    assert_eq!(
        run.failure_message().unwrap(),
        "1 of 2 package archive(s) failed to clip"
    );

    let out = rewrite_package(package(children), run.results, Some(arr(vec![whole(43)])));
    let kept = package_children(&out).unwrap();
    assert_eq!(kept.len(), 2, "the archive that failed is dropped");
    let region = |tile: &Json| {
        let items = tile.get("boundingVolume").unwrap().get("region").unwrap();
        items.as_items().unwrap()[0].as_number().unwrap().to_text()
    };
    assert_eq!(region(&kept[0]), "42");
    assert_eq!(region(&kept[1]), "5");
    assert_eq!(region(out.get("root").unwrap()), "43");
    assert!(out.get("asset").is_some());
}

#[test]
fn a_kept_child_without_a_region_leaves_the_root_alone() {
    let children = sample();
    let decisions = decide_children(&children, &west_is_zero);
    let mut run = PackageRun::new(&decisions);
    run.clipped(0, Some(Json::Null));
    run.clipped(6, None);
    assert_eq!(run.root_region(), RootRegion::Unknown { without_region: 1 });
    assert!(run.failure_message().is_none());
    let out = rewrite_package(package(children), run.results, None);
    // The first, the two that were left alone, and the last.
    assert_eq!(package_children(&out).unwrap().len(), 4);
}

#[test]
fn an_untouched_package_stays_as_it_is() {
    let children = vec![child("tileset.json", 0), obj(vec![])];
    let decisions = decide_children(&children, &west_is_zero);
    let run = PackageRun::new(&decisions);
    let before = format!("{:?}", package(vec![child("tileset.json", 0), obj(vec![])]));
    let out = rewrite_package(package(children), run.results, None);
    assert_eq!(format!("{:?}", out), before);
}

#[test]
fn regions_go_into_objects_and_nulls_only() {
    assert!(can_take_region(&obj(vec![])));
    assert!(can_take_region(&obj(vec![("boundingVolume", Json::Null)])));
    assert!(!can_take_region(&obj(vec![("boundingVolume", text("x"))])));
    let set = Json::Null.set("region", whole(1));
    assert_eq!(set.get("region").unwrap().as_number().unwrap().to_text(), "1");
    let set = set.set("region", whole(2)).set("other", whole(3));
    assert_eq!(set.get("region").unwrap().as_number().unwrap().to_text(), "2");
    let (rest, taken) = set.take("region");
    assert_eq!(taken.unwrap().as_number().unwrap().to_text(), "2");
    assert_eq!(rest.get("other").unwrap().as_number().unwrap().to_text(), "3");
}
