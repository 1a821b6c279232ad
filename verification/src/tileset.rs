//! Clipping a 3D Tiles tileset: which tiles stay, and which files they refer to.
//!
//! Whether an extent on the globe meets the clip polygon is decided by the caller; this
//! module decides which extent a tile has, and what follows from the answer.
use vstd::prelude::*;
use vstd::string::*;

use crate::json::{
    array_model, find_key, json_models, key_from, key_from_is_first, member_is_smaller,
    member_models, object_model, replaced_member, replacing_keeps_every_place, Json, JsonModel,
    JsonNumber, MemberModel, NumberModel,
};
use crate::uri::{resolve_uri, resolved};

verus! {

/// An extent on the globe that can be held against the clip polygon.
#[derive(Debug)]
pub enum Extent {
    /// The S2 cell with this token.
    S2 { token: String },
    /// A region: west, south, east and north in radians, then heights. A component that is
    /// no number counts as zero.
    Region { values: Vec<Option<JsonNumber>> },
}

/// What an `Extent` says.
pub enum ExtentModel {
    S2 { token: Seq<char> },
    Region { values: Seq<Option<NumberModel>> },
}

/// What an optional number says.
pub open spec fn slot_model(slot: Option<JsonNumber>) -> Option<NumberModel> {
    match slot {
        Some(number) => Some(number@),
        None => None,
    }
}

/// What optional numbers say, in order.
pub open spec fn slot_models(slots: Seq<Option<JsonNumber>>) -> Seq<Option<NumberModel>> {
    slots.map_values(|slot: Option<JsonNumber>| slot_model(slot))
}

impl View for Extent {
    type V = ExtentModel;

    open spec fn view(&self) -> ExtentModel {
        match self {
            Extent::S2 { token } => ExtentModel::S2 { token: token@ },
            Extent::Region { values } => ExtentModel::Region { values: slot_models(values@) },
        }
    }
}

/// The bounding volume of a tile, as far as it can be held against the clip polygon.
#[derive(Debug)]
pub enum TileVolume {
    /// The tile has none.
    Missing,
    /// An S2 cell or a region.
    Known { extent: Extent },
    /// A box, a sphere or anything else.
    Unknown,
}

/// What a `TileVolume` says.
pub enum VolumeModel {
    Missing,
    Known { extent: ExtentModel },
    Unknown,
}

impl View for TileVolume {
    type V = VolumeModel;

    open spec fn view(&self) -> VolumeModel {
        match self {
            TileVolume::Missing => VolumeModel::Missing,
            TileVolume::Known { extent } => VolumeModel::Known { extent: extent@ },
            TileVolume::Unknown => VolumeModel::Unknown,
        }
    }
}

/// The value of a member, where there is a value to begin with.
pub open spec fn then_get(json: Option<JsonModel>, key: Seq<char>) -> Option<JsonModel> {
    match json {
        Some(json) => json.get(key),
        None => None,
    }
}

/// The token of the S2 extension of a bounding volume.
pub open spec fn s2_token(volume: JsonModel) -> Option<Seq<char>> {
    let extension = then_get(volume.get("extensions"@), "3DTILES_bounding_volume_S2"@);
    match then_get(extension, "token"@) {
        Some(token) => token.as_text(),
        None => None,
    }
}

/// The items as numbers, each one that is none left open.
pub open spec fn slots_of(items: Seq<JsonModel>) -> Seq<Option<NumberModel>> {
    items.map_values(|item: JsonModel| item.as_number())
}

/// The components of the region of a bounding volume, where it has at least the four that
/// span it.
pub open spec fn region_of(volume: JsonModel) -> Option<Seq<Option<NumberModel>>> {
    match volume.get("region"@) {
        Some(region) => match region.as_items() {
            Some(items) => if items.len() >= 4 {
                Some(slots_of(items))
            } else {
                None
            },
            None => None,
        },
        None => None,
    }
}

/// The bounding volume of a tile: its S2 cell where it names one, else its region where it
/// has one.
pub open spec fn volume_of(tile: JsonModel) -> VolumeModel {
    match tile.get("boundingVolume"@) {
        None => VolumeModel::Missing,
        Some(volume) => match s2_token(volume) {
            Some(token) => VolumeModel::Known { extent: ExtentModel::S2 { token } },
            None => match region_of(volume) {
                Some(values) => VolumeModel::Known { extent: ExtentModel::Region { values } },
                None => VolumeModel::Unknown,
            },
        },
    }
}

/// A tile stays: its extent meets the clip polygon, or its bounding volume is of a kind
/// that cannot be tested. A tile without a bounding volume does not stay.
pub open spec fn tile_stays(tile: JsonModel, verdict: spec_fn(ExtentModel) -> bool) -> bool {
    match volume_of(tile) {
        VolumeModel::Missing => false,
        VolumeModel::Known { extent } => verdict(extent),
        VolumeModel::Unknown => true,
    }
}

/// `meets` can be asked about every extent, and its answer depends on what the extent says
/// and on nothing else.
pub open spec fn judges<F: Fn(&Extent) -> bool>(meets: F) -> bool {
    &&& forall|e: &Extent| #[trigger] call_requires(meets, (e,))
    &&& forall|e1: &Extent, e2: &Extent, b1: bool, b2: bool|
        e1@ == e2@ && #[trigger] call_ensures(meets, (e1,), b1) && #[trigger] call_ensures(
            meets,
            (e2,),
            b2,
        ) ==> b1 == b2
}

/// The answers of `meets`.
pub open spec fn verdict_of<F: Fn(&Extent) -> bool>(meets: F) -> spec_fn(ExtentModel) -> bool {
    |m: ExtentModel| exists|e: &Extent| e@ == m && #[trigger] call_ensures(meets, (e,), true)
}

/// What a content object links to: `uri` or, in old tilesets, `url`.
pub open spec fn link_of(content: JsonModel) -> Option<Seq<char>> {
    let link = match content.get("uri"@) {
        Some(uri) => Some(uri),
        None => content.get("url"@),
    };
    match link {
        Some(link) => link.as_text(),
        None => None,
    }
}

/// The path that a content object of the document `base` links to, where it stays inside
/// the archive.
pub open spec fn target_of(content: JsonModel, base: Seq<char>) -> Seq<Seq<char>> {
    match link_of(content) {
        Some(link) => match resolved(base, link) {
            Some(path) => seq![path],
            None => Seq::empty(),
        },
        None => Seq::empty(),
    }
}

/// The paths that the content objects link to, in order.
pub open spec fn targets_of(contents: Seq<JsonModel>, base: Seq<char>) -> Seq<Seq<char>>
    decreases contents.len(),
{
    if contents.len() == 0 {
        Seq::empty()
    } else {
        targets_of(contents.drop_last(), base) + target_of(contents.last(), base)
    }
}

/// The paths that a tile itself links to: its `content`, then its `contents`.
pub open spec fn own_targets(tile: JsonModel, base: Seq<char>) -> Seq<Seq<char>> {
    let single = match tile.get("content"@) {
        Some(content) => target_of(content, base),
        None => Seq::empty(),
    };
    let multiple = match tile.get("contents"@) {
        Some(JsonModel::Array { items }) => targets_of(items, base),
        _ => Seq::empty(),
    };
    single + multiple
}

/// A tile that is kept, with the children that stay clipped in the same way and the others
/// gone, and the paths that it and its remaining descendants link to, parents first.
pub open spec fn clipped(
    tile: JsonModel,
    base: Seq<char>,
    verdict: spec_fn(ExtentModel) -> bool,
) -> (JsonModel, Seq<Seq<char>>)
    decreases tile,
{
    let own = own_targets(tile, base);
    match tile.get("children"@) {
        Some(JsonModel::Array { items }) => {
            proof {
                member_is_smaller(tile, "children"@);
            }
            let (kept, paths) = clipped_children(items, base, verdict);
            (tile.with("children"@, JsonModel::Array { items: kept }), own + paths)
        },
        _ => (tile, own),
    }
}

/// The children that stay, each clipped, and the paths that they link to.
pub open spec fn clipped_children(
    children: Seq<JsonModel>,
    base: Seq<char>,
    verdict: spec_fn(ExtentModel) -> bool,
) -> (Seq<JsonModel>, Seq<Seq<char>>)
    decreases children,
{
    if children.len() == 0 {
        (Seq::empty(), Seq::empty())
    } else {
        let (kept, paths) = clipped_children(children.drop_last(), base, verdict);
        if tile_stays(children.last(), verdict) {
            let (child, more) = clipped(children.last(), base, verdict);
            (kept.push(child), paths + more)
        } else {
            (kept, paths)
        }
    }
}

/// A tileset with its root clipped; the root itself always stays.
pub open spec fn clipped_tileset(
    tileset: JsonModel,
    base: Seq<char>,
    verdict: spec_fn(ExtentModel) -> bool,
) -> (JsonModel, Seq<Seq<char>>) {
    match tileset.get("root"@) {
        Some(root) => {
            let (kept, paths) = clipped(root, base, verdict);
            (tileset.with("root"@, kept), paths)
        },
        None => (tileset, Seq::empty()),
    }
}

/// The texts of the strings, in order.
pub open spec fn texts(strings: Seq<String>) -> Seq<Seq<char>> {
    strings.map_values(|s: String| s@)
}

/// The items as numbers.
pub fn slots_from(items: &Vec<Json>) -> (slots: Vec<Option<JsonNumber>>)
    ensures
        slot_models(slots@) == slots_of(json_models(items@)),
{
    let mut slots: Vec<Option<JsonNumber>> = Vec::new();
    let mut i: usize = 0;
    while i < items.len()
        invariant
            i <= items@.len(),
            slots@.len() == i,
            slot_models(slots@) =~= slots_of(json_models(items@)).take(i as int),
        decreases items@.len() - i,
    {
        let slot = match items[i].as_number() {
            Some(number) => Some(number.clone()),
            None => None,
        };
        let ghost before = slots@;
        assert(json_models(items@)[i as int] == items@[i as int]@);
        slots.push(slot);
        assert(slot_models(slots@) =~= slot_models(before).push(slot_model(slot)));
        i += 1;
    }
    assert(slots_of(json_models(items@)).take(i as int) =~= slots_of(json_models(items@)));
    slots
}

/// The token of the S2 extension of a bounding volume.
fn find_s2_token(volume: &Json) -> (r: Option<String>)
    ensures
        match r {
            Some(token) => s2_token(volume@) == Some(token@),
            None => s2_token(volume@) is None,
        },
{
    let extensions = match volume.get("extensions") {
        Some(v) => v,
        None => {
            return None;
        },
    };
    let extension = match extensions.get("3DTILES_bounding_volume_S2") {
        Some(v) => v,
        None => {
            return None;
        },
    };
    match extension.get("token") {
        Some(v) => match v.as_text() {
            Some(token) => Some(token.clone()),
            None => None,
        },
        None => None,
    }
}

/// The bounding volume of a tile.
pub fn tile_volume(tile: &Json) -> (r: TileVolume)
    ensures
        r@ == volume_of(tile@),
{
    let volume = match tile.get("boundingVolume") {
        Some(v) => v,
        None => {
            return TileVolume::Missing;
        },
    };
    if let Some(token) = find_s2_token(volume) {
        return TileVolume::Known { extent: Extent::S2 { token } };
    }
    if let Some(region) = volume.get("region") {
        if let Some(items) = region.as_items() {
            if items.len() >= 4 {
                return TileVolume::Known { extent: Extent::Region { values: slots_from(items) } };
            }
        }
    }
    TileVolume::Unknown
}

/// Whether a tile stays. `meets` says which extents meet the clip polygon; it is asked
/// only where the tile has an extent that can be tested.
pub fn tile_intersects<F: Fn(&Extent) -> bool>(tile: &Json, meets: &F) -> (r: bool)
    requires
        judges(*meets),
    ensures
        r == tile_stays(tile@, verdict_of(*meets)),
{
    match tile_volume(tile) {
        TileVolume::Missing => false,
        TileVolume::Known { extent } => {
            let r = meets(&extent);
            r
        },
        TileVolume::Unknown => true,
    }
}

/// What a content object links to.
pub fn content_link(content: &Json) -> (r: Option<&String>)
    ensures
        match r {
            Some(link) => link_of(content@) == Some(link@),
            None => link_of(content@) is None,
        },
{
    let link = match content.get("uri") {
        Some(uri) => Some(uri),
        None => content.get("url"),
    };
    match link {
        Some(link) => link.as_text(),
        None => None,
    }
}

/// Add the path that a content object links to.
fn keep_target(content: &Json, base_doc_path: &str, keep_uris: &mut Vec<String>)
    ensures
        texts(final(keep_uris)@) == texts(old(keep_uris)@) + target_of(content@, base_doc_path@),
{
    assert(texts(keep_uris@) + Seq::<Seq<char>>::empty() =~= texts(keep_uris@));
    if let Some(link) = content_link(content) {
        if let Some(path) = resolve_uri(base_doc_path, link.as_str()) {
            let ghost before = keep_uris@;
            keep_uris.push(path);
            assert(texts(keep_uris@) =~= texts(before) + seq![path@]);
        }
    }
}

/// Add the paths that a tile itself links to.
fn keep_own_targets(tile: &Json, base_doc_path: &str, keep_uris: &mut Vec<String>)
    ensures
        texts(final(keep_uris)@) == texts(old(keep_uris)@) + own_targets(tile@, base_doc_path@),
{
    let ghost start = texts(keep_uris@);
    if let Some(content) = tile.get("content") {
        keep_target(content, base_doc_path, keep_uris);
    }
    let ghost single = match tile@.get("content"@) {
        Some(content) => target_of(content, base_doc_path@),
        None => Seq::empty(),
    };
    assert(texts(keep_uris@) =~= start + single);
    if let Some(contents) = tile.get("contents") {
        if let Some(items) = contents.as_items() {
            let mut i: usize = 0;
            while i < items.len()
                invariant
                    i <= items@.len(),
                    texts(keep_uris@) =~= start + single + targets_of(
                        json_models(items@).take(i as int),
                        base_doc_path@,
                    ),
                decreases items@.len() - i,
            {
                proof {
                    let upto = json_models(items@).take(i + 1);
                    assert(upto.drop_last() =~= json_models(items@).take(i as int));
                    assert(upto.last() == items@[i as int]@);
                }
                keep_target(&items[i], base_doc_path, keep_uris);
                i += 1;
            }
            assert(json_models(items@).take(i as int) =~= json_models(items@));
            assert(texts(keep_uris@) =~= start + own_targets(tile@, base_doc_path@));
            return;
        }
    }
    assert(texts(keep_uris@) =~= start + own_targets(tile@, base_doc_path@));
}

/// Clip a tile that is kept.
fn filter_node<F: Fn(&Extent) -> bool>(
    node: Json,
    base_doc_path: &str,
    meets: &F,
    keep_uris: &mut Vec<String>,
) -> (r: Json)
    requires
        judges(*meets),
    ensures
        r@ == clipped(node@, base_doc_path@, verdict_of(*meets)).0,
        texts(final(keep_uris)@) == texts(old(keep_uris)@) + clipped(
            node@,
            base_doc_path@,
            verdict_of(*meets),
        ).1,
    decreases node,
{
    broadcast use {array_model, object_model};

    keep_own_targets(&node, base_doc_path, keep_uris);
    let ghost whole = node@;
    match node {
        Json::Object { members } => {
            let ghost first = members@;
            match find_key(&members, "children") {
                Some(i) => {
                    let mut members = members;
                    let mut value = Json::Null;
                    std::mem::swap(&mut value, &mut members[i].value);
                    match value {
                        Json::Array { items } => {
                            proof {
                                assert(value == first[i as int].value);
                                assert(decreases_to!(node => node->members));
                                assert(decreases_to!(node->members => node->members@));
                                assert(decreases_to!(node->members@ => node->members@[i as int]));
                                assert(decreases_to!(node->members@[i as int] => node->members@[i as int].value));
                                assert(decreases_to!(value => value->items));
                            }
                            let kept = filter_children(items, base_doc_path, meets, keep_uris);
                            members[i].value = Json::Array { items: kept };
                            assert(member_models(members@) =~= member_models(first).update(
                                i as int,
                                MemberModel {
                                    key: first[i as int].key@,
                                    value: JsonModel::Array { items: json_models(kept@) },
                                },
                            ));
                        },
                        other => {
                            members[i].value = other;
                            assert(member_models(members@) =~= member_models(first));
                        },
                    }
                    Json::Object { members }
                },
                None => Json::Object { members },
            }
        },
        other => other,
    }
}

/// Clip the children of a tile.
fn filter_children<F: Fn(&Extent) -> bool>(
    children: Vec<Json>,
    base_doc_path: &str,
    meets: &F,
    keep_uris: &mut Vec<String>,
) -> (r: Vec<Json>)
    requires
        judges(*meets),
    ensures
        json_models(r@) == clipped_children(
            json_models(children@),
            base_doc_path@,
            verdict_of(*meets),
        ).0,
        texts(final(keep_uris)@) == texts(old(keep_uris)@) + clipped_children(
            json_models(children@),
            base_doc_path@,
            verdict_of(*meets),
        ).1,
    decreases children,
{
    let mut rest = children;
    let mut kept: Vec<Json> = Vec::new();
    let mut i: usize = 0;
    while i < rest.len()
        invariant
            i <= rest@.len(),
            judges(*meets),
            rest@.len() == children@.len(),
            forall|j: int| i <= j < children@.len() ==> rest@[j] == children@[j],
            json_models(kept@) =~= clipped_children(
                json_models(children@.take(i as int)),
                base_doc_path@,
                verdict_of(*meets),
            ).0,
            texts(keep_uris@) =~= texts(old(keep_uris)@) + clipped_children(
                json_models(children@.take(i as int)),
                base_doc_path@,
                verdict_of(*meets),
            ).1,
        decreases rest@.len() - i,
    {
        let mut child = Json::Null;
        std::mem::swap(&mut child, &mut rest[i]);
        proof {
            assert(child == children@[i as int]);
            assert(decreases_to!(children => children@));
            assert(decreases_to!(children@ => children@[i as int]));
            let upto = json_models(children@.take(i + 1));
            assert(upto.drop_last() =~= json_models(children@.take(i as int)));
            assert(upto.last() == child@);
        }
        if tile_intersects(&child, meets) {
            let ghost before = kept@;
            let clipped_child = filter_node(child, base_doc_path, meets, keep_uris);
            kept.push(clipped_child);
            assert(json_models(kept@) =~= json_models(before).push(clipped_child@));
        }
        i += 1;
    }
    assert(children@.take(i as int) =~= children@);
    kept
}

/// Clip a tileset document: prune the tiles below its root that do not stay, and add the
/// paths that the remaining ones link to, resolved against `base_doc_path`.
pub fn filter_tileset<F: Fn(&Extent) -> bool>(
    tileset: Json,
    base_doc_path: &str,
    meets: &F,
    keep_uris: &mut Vec<String>,
) -> (r: Json)
    requires
        judges(*meets),
    ensures
        r@ == clipped_tileset(tileset@, base_doc_path@, verdict_of(*meets)).0,
        texts(final(keep_uris)@) == texts(old(keep_uris)@) + clipped_tileset(
            tileset@,
            base_doc_path@,
            verdict_of(*meets),
        ).1,
{
    broadcast use {array_model, object_model};

    assert(texts(keep_uris@) + Seq::<Seq<char>>::empty() =~= texts(keep_uris@));
    match tileset {
        Json::Object { members } => {
            let ghost first = members@;
            match find_key(&members, "root") {
                Some(i) => {
                    let mut members = members;
                    let mut root = Json::Null;
                    std::mem::swap(&mut root, &mut members[i].value);
                    let kept = filter_node(root, base_doc_path, meets, keep_uris);
                    members[i].value = kept;
                    assert(member_models(members@) =~= member_models(first).update(
                        i as int,
                        MemberModel { key: first[i as int].key@, value: kept@ },
                    ));
                    Json::Object { members }
                },
                None => Json::Object { members },
            }
        },
        other => other,
    }
}

/// Every tile below `tile` stays.
pub open spec fn all_stay(tile: JsonModel, verdict: spec_fn(ExtentModel) -> bool) -> bool
    decreases tile,
{
    match tile.get("children"@) {
        Some(JsonModel::Array { items }) => {
            proof {
                member_is_smaller(tile, "children"@);
            }
            all_children_stay(items, verdict)
        },
        _ => true,
    }
}

/// Each of the tiles stays, with every tile below it.
pub open spec fn all_children_stay(
    children: Seq<JsonModel>,
    verdict: spec_fn(ExtentModel) -> bool,
) -> bool
    decreases children,
{
    children.len() == 0 || {
        &&& all_children_stay(children.drop_last(), verdict)
        &&& tile_stays(children.last(), verdict)
        &&& all_stay(children.last(), verdict)
    }
}

/// Replacing the children of a tile changes neither its extent nor its own content.
proof fn lemma_children_apart(tile: JsonModel, value: JsonModel, base: Seq<char>)
    ensures
        volume_of(tile.with("children"@, value)) == volume_of(tile),
        own_targets(tile.with("children"@, value), base) == own_targets(tile, base),
{
    reveal_strlit("children");
    reveal_strlit("boundingVolume");
    reveal_strlit("content");
    reveal_strlit("contents");
    assert("contents"@[1] != "children"@[1]);
    replaced_member(tile, "children"@, value, "boundingVolume"@);
    replaced_member(tile, "children"@, value, "content"@);
    replaced_member(tile, "children"@, value, "contents"@);
}

/// In a clipped tile every tile below it stays, its own extent and content are as they
/// were, and clipping it once more changes nothing and finds the same paths.
pub proof fn clipped_is_stable(
    tile: JsonModel,
    base: Seq<char>,
    verdict: spec_fn(ExtentModel) -> bool,
)
    ensures
        volume_of(clipped(tile, base, verdict).0) == volume_of(tile),
        own_targets(clipped(tile, base, verdict).0, base) == own_targets(tile, base),
        all_stay(clipped(tile, base, verdict).0, verdict),
        clipped(clipped(tile, base, verdict).0, base, verdict) == clipped(tile, base, verdict),
    decreases tile,
{
    if let Some(JsonModel::Array { items }) = tile.get("children"@) {
        member_is_smaller(tile, "children"@);
        clipped_children_are_stable(items, base, verdict);
        let (kept, paths) = clipped_children(items, base, verdict);
        let value = JsonModel::Array { items: kept };
        lemma_children_apart(tile, value, base);
        replaced_member(tile, "children"@, value, "children"@);
    }
}

/// The same of the children of a tile.
pub proof fn clipped_children_are_stable(
    children: Seq<JsonModel>,
    base: Seq<char>,
    verdict: spec_fn(ExtentModel) -> bool,
)
    ensures
        all_children_stay(clipped_children(children, base, verdict).0, verdict),
        clipped_children(clipped_children(children, base, verdict).0, base, verdict)
            == clipped_children(children, base, verdict),
    decreases children,
{
    if children.len() > 0 {
        clipped_children_are_stable(children.drop_last(), base, verdict);
        let (kept, paths) = clipped_children(children.drop_last(), base, verdict);
        if tile_stays(children.last(), verdict) {
            clipped_is_stable(children.last(), base, verdict);
            let child = clipped(children.last(), base, verdict).0;
            assert(kept.push(child).drop_last() =~= kept);
        }
    }
}

/// The root of a tileset is never dropped: it keeps its extent and content, and what it
/// links to comes first among the paths.
pub proof fn root_is_never_dropped(
    tileset: JsonModel,
    base: Seq<char>,
    verdict: spec_fn(ExtentModel) -> bool,
    root: JsonModel,
)
    requires
        tileset.get("root"@) == Some(root),
    ensures
        clipped_tileset(tileset, base, verdict).0.get("root"@) matches Some(kept) && {
            &&& volume_of(kept) == volume_of(root)
            &&& own_targets(kept, base) == own_targets(root, base)
            &&& own_targets(root, base).is_prefix_of(clipped_tileset(tileset, base, verdict).1)
        },
{
    let kept = clipped(root, base, verdict).0;
    replaced_member(tileset, "root"@, kept, "root"@);
    clipped_is_stable(root, base, verdict);
    let own = own_targets(root, base);
    let paths = clipped_tileset(tileset, base, verdict).1;
    assert(paths.subrange(0, own.len() as int) =~= own);
}

/// Clipping a clipped tileset changes nothing and finds the same paths.
pub proof fn clipping_twice_is_clipping_once(
    tileset: JsonModel,
    base: Seq<char>,
    verdict: spec_fn(ExtentModel) -> bool,
)
    ensures
        clipped_tileset(clipped_tileset(tileset, base, verdict).0, base, verdict)
            == clipped_tileset(tileset, base, verdict),
{
    if let Some(root) = tileset.get("root"@) {
        let kept = clipped(root, base, verdict).0;
        replaced_member(tileset, "root"@, kept, "root"@);
        clipped_is_stable(root, base, verdict);
    }
}

/// Where every tile stays, nothing is changed.
pub proof fn nothing_is_dropped_without_cause(
    tile: JsonModel,
    base: Seq<char>,
    verdict: spec_fn(ExtentModel) -> bool,
)
    requires
        all_stay(tile, verdict),
    ensures
        clipped(tile, base, verdict).0 == tile,
    decreases tile,
{
    if let Some(JsonModel::Array { items }) = tile.get("children"@) {
        member_is_smaller(tile, "children"@);
        no_child_is_dropped_without_cause(items, base, verdict);
        if let JsonModel::Object { members } = tile {
            key_from_is_first(members, "children"@, 0);
            let i = key_from(members, "children"@, 0)->0;
            assert(members.update(i, members[i]) =~= members);
        }
    }
}

/// The same of the children of a tile.
pub proof fn no_child_is_dropped_without_cause(
    children: Seq<JsonModel>,
    base: Seq<char>,
    verdict: spec_fn(ExtentModel) -> bool,
)
    requires
        all_children_stay(children, verdict),
    ensures
        clipped_children(children, base, verdict).0 == children,
    decreases children,
{
    if children.len() > 0 {
        no_child_is_dropped_without_cause(children.drop_last(), base, verdict);
        nothing_is_dropped_without_cause(children.last(), base, verdict);
        assert(children.drop_last().push(children.last()) =~= children);
    } else {
        assert(children =~= Seq::empty());
    }
}

/// A child that stays is among the kept ones, clipped, with all that it links to.
pub proof fn staying_child_is_kept(
    children: Seq<JsonModel>,
    base: Seq<char>,
    verdict: spec_fn(ExtentModel) -> bool,
    i: int,
)
    requires
        0 <= i < children.len(),
        tile_stays(children[i], verdict),
    ensures
        clipped_children(children, base, verdict).0.contains(clipped(children[i], base, verdict).0),
        forall|path: Seq<char>|
            clipped(children[i], base, verdict).1.contains(path) ==> #[trigger] clipped_children(
                children,
                base,
                verdict,
            ).1.contains(path),
    decreases children.len(),
{
    let (kept, paths) = clipped_children(children, base, verdict);
    let (before, paths_before) = clipped_children(children.drop_last(), base, verdict);
    let (child, more) = clipped(children[i], base, verdict);
    if i == children.len() - 1 {
        assert(kept.last() == child);
        assert(paths =~= paths_before + more);
        assert forall|path: Seq<char>| more.contains(path) implies #[trigger] paths.contains(
            path,
        ) by {
            let k = choose|k: int| 0 <= k < more.len() && more[k] == path;
            assert(paths[paths_before.len() + k] == path);
        }
    } else {
        staying_child_is_kept(children.drop_last(), base, verdict, i);
        let k = choose|k: int| 0 <= k < before.len() && before[k] == child;
        assert(kept[k] == child);
        assert forall|path: Seq<char>| more.contains(path) implies #[trigger] paths.contains(
            path,
        ) by {
            assert(paths_before.contains(path));
            let k = choose|k: int| 0 <= k < paths_before.len() && paths_before[k] == path;
            assert(paths[k] == path);
        }
    }
}

/// Whatever the clip polygon, a tile stays whose bounding volume names no S2 cell and has
/// no region: a box or a sphere is never dropped.
pub proof fn untestable_volume_is_kept(
    tile: JsonModel,
    volume: JsonModel,
    verdict: spec_fn(ExtentModel) -> bool,
)
    requires
        tile.get("boundingVolume"@) == Some(volume),
        s2_token(volume) is None,
        volume.get("region"@) is None,
    ensures
        tile_stays(tile, verdict),
{
}

/// The S2 extension of the bounding volume names the cell with this token.
pub open spec fn names_cell(volume: JsonModel, token: Seq<char>) -> bool {
    &&& volume.get("extensions"@) matches Some(extensions)
    &&& extensions.get("3DTILES_bounding_volume_S2"@) matches Some(extension)
    &&& extension.get("token"@) == Some(JsonModel::Text { text: token })
}

/// The S2 cell of a bounding volume counts, whatever else the volume holds: it is the extent
/// of the tile, and the tile stays where the cell meets the clip polygon.
pub proof fn cell_is_the_extent(
    tile: JsonModel,
    volume: JsonModel,
    token: Seq<char>,
    verdict: spec_fn(ExtentModel) -> bool,
)
    requires
        tile.get("boundingVolume"@) == Some(volume),
        names_cell(volume, token),
    ensures
        volume_of(tile) == (VolumeModel::Known { extent: ExtentModel::S2 { token } }),
        tile_stays(tile, verdict) == verdict(ExtentModel::S2 { token }),
{
}

/// Without an S2 cell a region of at least four components is the extent of the tile, with
/// all its components in their places: the value at each position is the number at that
/// position, west first, followed by south, east, north and the heights, and a component that
/// is no number stays a gap. The tile stays where that region meets the clip polygon.
pub proof fn region_keeps_its_components(
    tile: JsonModel,
    volume: JsonModel,
    items: Seq<JsonModel>,
    verdict: spec_fn(ExtentModel) -> bool,
)
    requires
        tile.get("boundingVolume"@) == Some(volume),
        forall|token: Seq<char>| !#[trigger] names_cell(volume, token),
        volume.get("region"@) == Some(JsonModel::Array { items }),
        items.len() >= 4,
    ensures
        volume_of(tile) matches VolumeModel::Known { extent: ExtentModel::Region { values } } && {
            &&& values.len() == items.len()
            &&& forall|i: int|
                0 <= i < items.len() ==> #[trigger] values[i] == (match items[i] {
                    JsonModel::Number { number } => Some(number),
                    _ => None,
                })
            &&& tile_stays(tile, verdict) == verdict(ExtentModel::Region { values })
        },
{
    if let Some(token) = s2_token(volume) {
        assert(names_cell(volume, token));
    }
}

/// A tile without a bounding volume is dropped. One whose volume has neither an S2 cell nor
/// a region of at least four components stays, whatever the clip polygon.
pub proof fn other_volumes_are_not_tested(
    tile: JsonModel,
    verdict: spec_fn(ExtentModel) -> bool,
)
    ensures
        tile.get("boundingVolume"@) is None ==> volume_of(tile) is Missing && !tile_stays(
            tile,
            verdict,
        ),
        tile.get("boundingVolume"@) matches Some(volume) ==> (forall|token: Seq<char>|
            !#[trigger] names_cell(volume, token)) ==> (forall|items: Seq<JsonModel>|
            volume.get("region"@) == Some(JsonModel::Array { items }) ==> #[trigger] items.len()
                < 4) ==> volume_of(tile) is Unknown && tile_stays(tile, verdict),
{
    if let Some(volume) = tile.get("boundingVolume"@) {
        if let Some(token) = s2_token(volume) {
            assert(names_cell(volume, token));
        }
        if let Some(JsonModel::Array { items }) = volume.get("region"@) {
            assert(items.len() >= 0);
        }
    }
}

/// An extent says what it holds: its token, or the number at each position of its region.
pub proof fn extent_says_what_it_holds(extent: Extent)
    ensures
        match extent {
            Extent::S2 { token } => extent@ == (ExtentModel::S2 { token: token@ }),
            Extent::Region { values } => extent@ matches ExtentModel::Region { values: models }
                && models.len() == values@.len() && forall|i: int|
                0 <= i < values@.len() ==> #[trigger] models[i] == (match values@[i] {
                    Some(number) => Some(number@),
                    None => None,
                }),
        },
{
}

/// A content object links to the text of its `uri`. Only where it has no `uri` at all does
/// its `url` count; what is no text links to nothing.
pub proof fn uri_comes_before_url(content: JsonModel)
    ensures
        content.get("uri"@) matches Some(uri) ==> link_of(content) == (match uri {
            JsonModel::Text { text } => Some(text),
            _ => None,
        }),
        content.get("uri"@) is None ==> link_of(content) == (match content.get("url"@) {
            Some(JsonModel::Text { text }) => Some(text),
            _ => None,
        }),
{
}

/// Contents are followed one after the other.
pub proof fn contents_are_followed_in_turn(
    first: Seq<JsonModel>,
    second: Seq<JsonModel>,
    base: Seq<char>,
)
    ensures
        targets_of(first + second, base) == targets_of(first, base) + targets_of(second, base),
    decreases second.len(),
{
    let all = first + second;
    if second.len() == 0 {
        assert(all =~= first);
        assert(targets_of(first, base) + targets_of(second, base) =~= targets_of(first, base));
    } else {
        contents_are_followed_in_turn(first, second.drop_last(), base);
        assert(all.drop_last() =~= first + second.drop_last());
        assert(all.last() == second.last());
        assert(targets_of(first, base) + targets_of(second, base) =~= targets_of(first, base)
            + targets_of(second.drop_last(), base) + target_of(second.last(), base));
    }
}

/// One content object leads to the path that its link names from the document, where it
/// names one, and to nothing otherwise.
pub proof fn content_leads_to_its_link(content: JsonModel, base: Seq<char>)
    ensures
        link_of(content) matches Some(link) ==> resolved(base, link) matches Some(path)
            ==> targets_of(seq![content], base) == seq![path],
        link_of(content) matches Some(link) ==> resolved(base, link) is None ==> targets_of(
            seq![content],
            base,
        ).len() == 0,
        link_of(content) is None ==> targets_of(seq![content], base).len() == 0,
{
    let one = seq![content];
    assert(one.drop_last() =~= Seq::<JsonModel>::empty());
    assert(one.last() == content);
    assert(targets_of(one.drop_last(), base) =~= Seq::empty());
    assert(targets_of(one, base) =~= target_of(content, base));
}

/// A tile links to what its `content` links to, and behind that to what its `contents` do.
pub proof fn content_comes_before_contents(
    tile: JsonModel,
    base: Seq<char>,
    single: Seq<JsonModel>,
    multiple: Seq<JsonModel>,
)
    requires
        tile.get("content"@) matches Some(content) ==> single == seq![content],
        tile.get("content"@) is None ==> single.len() == 0,
        match tile.get("contents"@) {
            Some(JsonModel::Array { items }) => multiple == items,
            _ => multiple.len() == 0,
        },
    ensures
        own_targets(tile, base) == targets_of(single + multiple, base),
{
    contents_are_followed_in_turn(single, multiple, base);
    if let Some(content) = tile.get("content"@) {
        assert(single.drop_last() =~= Seq::<JsonModel>::empty());
        assert(targets_of(single.drop_last(), base) =~= Seq::empty());
        assert(targets_of(single, base) =~= target_of(content, base));
    }
    match tile.get("contents"@) {
        Some(JsonModel::Array { items }) => {},
        _ => {
            assert(targets_of(multiple, base) =~= Seq::empty());
        },
    }
}

/// Children are clipped one after the other, each by itself.
pub proof fn children_are_clipped_in_turn(
    first: Seq<JsonModel>,
    second: Seq<JsonModel>,
    base: Seq<char>,
    verdict: spec_fn(ExtentModel) -> bool,
)
    ensures
        clipped_children(first + second, base, verdict).0 == clipped_children(
            first,
            base,
            verdict,
        ).0 + clipped_children(second, base, verdict).0,
        clipped_children(first + second, base, verdict).1 == clipped_children(
            first,
            base,
            verdict,
        ).1 + clipped_children(second, base, verdict).1,
    decreases second.len(),
{
    let all = first + second;
    let (kept, paths) = clipped_children(first, base, verdict);
    if second.len() == 0 {
        assert(all =~= first);
        assert(kept + clipped_children(second, base, verdict).0 =~= kept);
        assert(paths + clipped_children(second, base, verdict).1 =~= paths);
    } else {
        let front = second.drop_last();
        children_are_clipped_in_turn(first, front, base, verdict);
        assert(all.drop_last() =~= first + front);
        assert(all.last() == second.last());
        let (more, more_paths) = clipped_children(front, base, verdict);
        if tile_stays(second.last(), verdict) {
            let (child, links) = clipped(second.last(), base, verdict);
            assert((kept + more).push(child) =~= kept + more.push(child));
            assert((paths + more_paths) + links =~= paths + (more_paths + links));
        }
    }
}

/// One child stays, clipped, with what it links to, or it goes with everything below it.
pub proof fn child_stays_or_goes(
    child: JsonModel,
    base: Seq<char>,
    verdict: spec_fn(ExtentModel) -> bool,
)
    ensures
        tile_stays(child, verdict) ==> clipped_children(seq![child], base, verdict) == (
            seq![clipped(child, base, verdict).0],
            clipped(child, base, verdict).1,
        ),
        !tile_stays(child, verdict) ==> clipped_children(seq![child], base, verdict).0.len() == 0
            && clipped_children(seq![child], base, verdict).1.len() == 0,
{
    let one = seq![child];
    assert(one.drop_last() =~= Seq::<JsonModel>::empty());
    assert(one.last() == child);
    let (kept, paths) = clipped_children(one.drop_last(), base, verdict);
    assert(kept =~= Seq::empty());
    assert(paths =~= Seq::empty());
    let (clip, links) = clipped(child, base, verdict);
    assert(kept.push(clip) =~= seq![clip]);
    assert(paths + links =~= links);
}

/// Clipping a tile replaces its children by the clipped ones and leaves every other member
/// as it was; what it links to comes before what its children link to. A tile without
/// children stays as it is.
pub proof fn clipping_touches_children_alone(
    tile: JsonModel,
    base: Seq<char>,
    verdict: spec_fn(ExtentModel) -> bool,
    other: Seq<char>,
)
    requires
        other != "children"@,
    ensures
        clipped(tile, base, verdict).0.get(other) == tile.get(other),
        match tile.get("children"@) {
            Some(JsonModel::Array { items }) => clipped(tile, base, verdict).0.get("children"@)
                == Some(
                JsonModel::Array { items: clipped_children(items, base, verdict).0 },
            ) && clipped(tile, base, verdict).1 == own_targets(tile, base) + clipped_children(
                items,
                base,
                verdict,
            ).1,
            _ => clipped(tile, base, verdict) == (tile, own_targets(tile, base)),
        },
{
    if let Some(JsonModel::Array { items }) = tile.get("children"@) {
        let value = JsonModel::Array { items: clipped_children(items, base, verdict).0 };
        replaced_member(tile, "children"@, value, other);
    }
}

/// Clipping a tileset clips its root, with what the root and its descendants link to, and
/// leaves every other member as it was. A document without a root stays as it is.
pub proof fn clipping_touches_the_root_alone(
    tileset: JsonModel,
    base: Seq<char>,
    verdict: spec_fn(ExtentModel) -> bool,
    other: Seq<char>,
)
    requires
        other != "root"@,
    ensures
        clipped_tileset(tileset, base, verdict).0.get(other) == tileset.get(other),
        match tileset.get("root"@) {
            Some(root) => clipped_tileset(tileset, base, verdict).0.get("root"@) == Some(
                clipped(root, base, verdict).0,
            ) && clipped_tileset(tileset, base, verdict).1 == clipped(root, base, verdict).1,
            None => clipped_tileset(tileset, base, verdict).0 == tileset && clipped_tileset(
                tileset,
                base,
                verdict,
            ).1.len() == 0,
        },
{
    if let Some(root) = tileset.get("root"@) {
        replaced_member(tileset, "root"@, clipped(root, base, verdict).0, other);
    }
}

/// The verdict on an extent is what `meets` answers about it.
pub proof fn verdict_is_the_answer<F: Fn(&Extent) -> bool>(meets: F, extent: &Extent, answer: bool)
    requires
        judges(meets),
        call_ensures(meets, (extent,), answer),
    ensures
        verdict_of(meets)(extent@) == answer,
{
    if answer {
        assert(extent@ == extent@ && call_ensures(meets, (extent,), true));
    }
}

/// The texts are those of the strings, in their order.
pub proof fn texts_are_those_of_the_strings(strings: Seq<String>, i: int)
    requires
        0 <= i < strings.len(),
    ensures
        texts(strings).len() == strings.len(),
        texts(strings)[i] == strings[i]@,
{
}

/// What is read as the extent of a tile without an S2 cell holds every component of its
/// region in its place.
pub proof fn extent_that_is_read_has_every_component(
    tile: &Json,
    r: TileVolume,
    volume: JsonModel,
    items: Seq<JsonModel>,
)
    requires
        call_ensures(tile_volume, (tile,), r),
        tile@.get("boundingVolume"@) == Some(volume),
        forall|token: Seq<char>| !#[trigger] names_cell(volume, token),
        volume.get("region"@) == Some(JsonModel::Array { items }),
        items.len() >= 4,
    ensures
        r matches TileVolume::Known { extent: Extent::Region { values } } && {
            &&& values@.len() == items.len()
            &&& forall|i: int|
                0 <= i < items.len() ==> match #[trigger] values@[i] {
                    Some(number) => items[i] == (JsonModel::Number { number: number@ }),
                    None => !(items[i] is Number),
                }
        },
{
    region_keeps_its_components(tile@, volume, items, |extent: ExtentModel| true);
    assert(r@ == volume_of(tile@));
    if let TileVolume::Known { extent: Extent::Region { values } } = r {
        let models = slot_models(values@);
        assert(models.len() == values@.len());
        assert forall|i: int| 0 <= i < items.len() implies match #[trigger] values@[i] {
            Some(number) => items[i] == (JsonModel::Number { number: number@ }),
            None => !(items[i] is Number),
        } by {
            assert(models[i] == slot_model(values@[i]));
        }
    }
}

/// Whether a tile stays is what `meets` answers about its extent, where it has one that can be
/// tested.
pub proof fn tile_stays_as_its_extent_is_judged<F: Fn(&Extent) -> bool>(
    tile: &Json,
    meets: &F,
    r: bool,
    extent: &Extent,
    answer: bool,
)
    requires
        judges(*meets),
        call_ensures(tile_intersects::<F>, (tile, meets), r),
        call_ensures(*meets, (extent,), answer),
    ensures
        volume_of(tile@) == (VolumeModel::Known { extent: extent@ }) ==> r == answer,
        volume_of(tile@) is Missing ==> !r,
        volume_of(tile@) is Unknown ==> r,
{
    verdict_is_the_answer(*meets, extent, answer);
}

/// Clipping a tile leaves its members in their places.
pub proof fn clipping_keeps_members_in_place(
    members: Seq<MemberModel>,
    base: Seq<char>,
    verdict: spec_fn(ExtentModel) -> bool,
)
    ensures
        clipped(JsonModel::Object { members }, base, verdict).0 matches JsonModel::Object {
            members: after,
        } && {
            &&& after.len() == members.len()
            &&& forall|i: int|
                0 <= i < members.len() ==> (#[trigger] after[i]).key == members[i].key && (
                members[i].key != "children"@ ==> after[i] == members[i])
        },
{
    let tile = JsonModel::Object { members };
    if let Some(JsonModel::Array { items }) = tile.get("children"@) {
        let value = JsonModel::Array { items: clipped_children(items, base, verdict).0 };
        replacing_keeps_every_place(members, "children"@, value);
    }
}

/// Clipping a tileset leaves its members in their places.
pub proof fn clipping_keeps_document_in_place(
    members: Seq<MemberModel>,
    base: Seq<char>,
    verdict: spec_fn(ExtentModel) -> bool,
)
    ensures
        clipped_tileset(JsonModel::Object { members }, base, verdict).0 matches JsonModel::Object {
            members: after,
        } && {
            &&& after.len() == members.len()
            &&& forall|i: int|
                0 <= i < members.len() ==> (#[trigger] after[i]).key == members[i].key && (
                members[i].key != "root"@ ==> after[i] == members[i])
        },
{
    let tileset = JsonModel::Object { members };
    if let Some(root) = tileset.get("root"@) {
        replacing_keeps_every_place(members, "root"@, clipped(root, base, verdict).0);
    }
}

} // verus!
