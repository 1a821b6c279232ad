//! I3S scene layers: reading node documents and node pages.
//!
//! Whether a node's bounds meet the clip polygon is decided by the caller; this module
//! decides which bounds a node has.
use vstd::prelude::*;
use vstd::string::*;

use crate::json::{json_models, Json, JsonModel, JsonNumber, MemberModel, NumberModel};
use crate::nodes::{children_ids, ChildRef, I3SNode, NodeModel, NodeTable};
use crate::text::{
    chars_of, contains_text, decimal_int, ends_with, has_prefix, has_suffix, has_text,
    inner_text_is_what_stands_between, part, prefix_is_what_comes_first, slashed, slashed_chars,
    starts_with, string_of, suffix_is_what_comes_last,
};
use crate::tileset::{slot_model, slot_models, slots_of};
use crate::uri::{
    base_name, base_name_is_the_last_name, file_name, is_name, name_is_a_text_without_slashes,
};

verus! {

/// The bounds of a node. A component that is no number counts as zero.
#[derive(Debug)]
pub enum NodeBounds {
    /// A minimum bounding sphere: longitude, latitude and height of its centre, and its
    /// radius in metres.
    Sphere { values: Vec<Option<JsonNumber>> },
    /// An oriented box: its centre and its half sizes, three components each.
    Box { center: Vec<Option<JsonNumber>>, half_size: Vec<Option<JsonNumber>> },
}

/// What a `NodeBounds` says.
pub enum BoundsModel {
    Sphere { values: Seq<Option<NumberModel>> },
    Box { center: Seq<Option<NumberModel>>, half_size: Seq<Option<NumberModel>> },
}

impl View for NodeBounds {
    type V = BoundsModel;

    open spec fn view(&self) -> BoundsModel {
        match self {
            NodeBounds::Sphere { values } => BoundsModel::Sphere { values: slot_models(values@) },
            NodeBounds::Box { center, half_size } => BoundsModel::Box {
                center: slot_models(center@),
                half_size: slot_models(half_size@),
            },
        }
    }
}

/// The items of an array member.
pub open spec fn items_of(json: JsonModel, key: Seq<char>) -> Option<Seq<JsonModel>> {
    match json.get(key) {
        Some(value) => value.as_items(),
        None => None,
    }
}

/// The bounds that a box object gives: its centre and half sizes, where it has both with
/// three components at least.
pub open spec fn box_bounds(obb: JsonModel) -> Option<BoundsModel> {
    match (items_of(obb, "center"@), items_of(obb, "halfSize"@)) {
        (Some(center), Some(half_size)) => if center.len() >= 3 && half_size.len() >= 3 {
            Some(
                BoundsModel::Box {
                    center: slots_of(center.take(3)),
                    half_size: slots_of(half_size.take(3)),
                },
            )
        } else {
            None
        },
        _ => None,
    }
}

/// The bounds of a node: its `mbs` array where it has one, else its `obb`, as an object or
/// as a flat array. Arrays that are too short give no bounds.
pub open spec fn bounds_of(node: JsonModel) -> Option<BoundsModel> {
    match items_of(node, "mbs"@) {
        Some(mbs) => if mbs.len() >= 4 {
            Some(BoundsModel::Sphere { values: slots_of(mbs.take(4)) })
        } else {
            None
        },
        None => match node.get("obb"@) {
            Some(JsonModel::Object { members }) => box_bounds(JsonModel::Object { members }),
            Some(JsonModel::Array { items }) => if items.len() >= 6 {
                Some(
                    BoundsModel::Box {
                        center: slots_of(items.take(3)),
                        half_size: slots_of(items.subrange(3, 6)),
                    },
                )
            } else {
                None
            },
            _ => None,
        },
    }
}

/// The items from `from` up to `to`, as numbers.
fn slots_between(items: &Vec<Json>, from: usize, to: usize) -> (r: Vec<Option<JsonNumber>>)
    requires
        from <= to <= items@.len(),
    ensures
        slot_models(r@) == slots_of(json_models(items@).subrange(from as int, to as int)),
{
    let mut r: Vec<Option<JsonNumber>> = Vec::new();
    let mut i: usize = from;
    while i < to
        invariant
            from <= i <= to <= items@.len(),
            slot_models(r@) =~= slots_of(json_models(items@).subrange(from as int, i as int)),
        decreases to - i,
    {
        let slot = match items[i].as_number() {
            Some(number) => Some(number.clone()),
            None => None,
        };
        let ghost before = r@;
        let ghost all = json_models(items@);
        assert(all[i as int] == items@[i as int]@);
        r.push(slot);
        assert(slot_models(r@) =~= slot_models(before).push(slot_model(slot)));
        assert(all.subrange(from as int, i + 1) =~= all.subrange(from as int, i as int).push(
            all[i as int],
        ));
        i += 1;
    }
    r
}

/// Read a node's bounds. `None` when the node declares no usable bounds; its children
/// still have to be walked.
pub fn parse_node_bounds(node: &Json) -> (r: Option<NodeBounds>)
    ensures
        match r {
            Some(bounds) => bounds_of(node@) == Some(bounds@),
            None => bounds_of(node@) is None,
        },
{
    broadcast use {crate::json::array_model, crate::json::object_model};

    if let Some(mbs) = node.get("mbs") {
        if let Some(items) = mbs.as_items() {
            if items.len() >= 4 {
                let values = slots_between(items, 0, 4);
                assert(json_models(items@).subrange(0, 4) =~= json_models(items@).take(4));
                return Some(NodeBounds::Sphere { values });
            }
            return None;
        }
    }
    let obb = match node.get("obb") {
        Some(obb) => obb,
        None => {
            return None;
        },
    };
    match obb {
        Json::Object { .. } => {
            let center = match obb.get("center") {
                Some(v) => v,
                None => {
                    return None;
                },
            };
            let center = match center.as_items() {
                Some(items) => items,
                None => {
                    return None;
                },
            };
            let half_size = match obb.get("halfSize") {
                Some(v) => v,
                None => {
                    return None;
                },
            };
            let half_size = match half_size.as_items() {
                Some(items) => items,
                None => {
                    return None;
                },
            };
            if center.len() < 3 || half_size.len() < 3 {
                return None;
            }
            assert(json_models(center@).subrange(0, 3) =~= json_models(center@).take(3));
            assert(json_models(half_size@).subrange(0, 3) =~= json_models(half_size@).take(3));
            Some(
                NodeBounds::Box {
                    center: slots_between(center, 0, 3),
                    half_size: slots_between(half_size, 0, 3),
                },
            )
        },
        Json::Array { items } => {
            if items.len() < 6 {
                return None;
            }
            assert(json_models(items@).subrange(0, 3) =~= json_models(items@).take(3));
            Some(
                NodeBounds::Box {
                    center: slots_between(items, 0, 3),
                    half_size: slots_between(items, 3, 6),
                },
            )
        },
        _ => None,
    }
}

/// The id of a member: `id` or, where there is none, `index`.
pub open spec fn id_member(json: JsonModel) -> Option<JsonModel> {
    match json.get("id"@) {
        Some(id) => Some(id),
        None => json.get("index"@),
    }
}

/// A text, or a number as it is written.
pub open spec fn scalar_text(json: JsonModel) -> Option<Seq<char>> {
    match json {
        JsonModel::Text { text } => Some(text),
        JsonModel::Number { number } => Some(JsonNumber::written(number)),
        _ => None,
    }
}

/// The node id that a child reference names: a bare number, a bare text, or an object with
/// `id` or `index`.
pub open spec fn child_id(child: JsonModel) -> Option<Seq<char>> {
    match child {
        JsonModel::Object { members } => match id_member(child) {
            Some(id) => scalar_text(id),
            None => None,
        },
        _ => scalar_text(child),
    }
}

fn scalar_string(json: &Json) -> (r: Option<String>)
    ensures
        match r {
            Some(s) => scalar_text(json@) == Some(s@),
            None => scalar_text(json@) is None,
        },
{
    match json {
        Json::Text { text } => Some(text.clone()),
        Json::Number { number } => Some(number.to_text()),
        _ => None,
    }
}

fn find_id(json: &Json) -> (r: Option<&Json>)
    ensures
        match r {
            Some(id) => id_member(json@) == Some(id@),
            None => id_member(json@) is None,
        },
{
    match json.get("id") {
        Some(id) => Some(id),
        None => json.get("index"),
    }
}

/// Read a child reference's node id.
pub fn child_id_of(child: &Json) -> (r: Option<String>)
    ensures
        match r {
            Some(id) => child_id(child@) == Some(id@),
            None => child_id(child@) is None,
        },
{
    broadcast use crate::json::object_model;

    match child {
        Json::Object { .. } => match find_id(child) {
            Some(id) => scalar_string(id),
            None => None,
        },
        _ => scalar_string(child),
    }
}

/// The ids that the child references name, those left out that name none.
pub open spec fn named_ids(children: Seq<JsonModel>) -> Seq<Seq<char>>
    decreases children.len(),
{
    if children.len() == 0 {
        Seq::empty()
    } else {
        match child_id(children.last()) {
            Some(id) => named_ids(children.drop_last()).push(id),
            None => named_ids(children.drop_last()),
        }
    }
}

/// The ids of the children of a node document.
pub open spec fn node_children(node: JsonModel) -> Seq<Seq<char>> {
    match items_of(node, "children"@) {
        Some(items) => named_ids(items),
        None => Seq::empty(),
    }
}

/// Read the children of a node document.
pub fn read_children(node: &Json) -> (r: Vec<ChildRef>)
    ensures
        children_ids(r@) == node_children(node@),
{
    let mut r: Vec<ChildRef> = Vec::new();
    let items = match node.get("children") {
        Some(children) => match children.as_items() {
            Some(items) => items,
            None => {
                assert(children_ids(r@) =~= Seq::empty());
                return r;
            },
        },
        None => {
            assert(children_ids(r@) =~= Seq::empty());
            return r;
        },
    };
    let mut i: usize = 0;
    while i < items.len()
        invariant
            i <= items@.len(),
            children_ids(r@) =~= named_ids(json_models(items@).take(i as int)),
        decreases items@.len() - i,
    {
        proof {
            let upto = json_models(items@).take(i + 1);
            assert(upto.drop_last() =~= json_models(items@).take(i as int));
            assert(upto.last() == items@[i as int]@);
        }
        if let Some(id) = child_id_of(&items[i]) {
            let ghost before = r@;
            r.push(ChildRef { id });
            assert(children_ids(r@) =~= children_ids(before).push(id@));
        }
        i += 1;
    }
    assert(json_models(items@).take(i as int) =~= json_models(items@));
    r
}

/// The path of a node's own document.
pub open spec fn node_document(id: Seq<char>) -> Seq<char> {
    "nodes/"@ + id + "/3dNodeIndexDocument.json"@
}

/// The path of a node's own document.
pub fn node_document_path(id: &str) -> (s: String)
    ensures
        s@ == node_document(id@),
{
    let mut s = "nodes/".to_owned();
    s.append(id);
    s.append("/3dNodeIndexDocument.json");
    s
}

/// A name without the `.gz` at its end.
pub open spec fn without_gz(name: Seq<char>) -> Seq<char> {
    if ends_with(name, ".gz"@) {
        name.take(name.len() - 3)
    } else {
        name
    }
}

/// A name without the `.gz` at its end.
pub fn strip_gz(name: &str) -> (s: String)
    ensures
        s@ == without_gz(name@),
{
    let chars = chars_of(name);
    if has_suffix(chars.as_slice(), ".gz") {
        proof {
            reveal_strlit(".gz");
        }
        let stem = part(chars.as_slice(), 0, chars.len() - 3);
        assert(stem@ =~= name@.take(name@.len() - 3));
        string_of(stem.as_slice())
    } else {
        string_of(chars.as_slice())
    }
}

/// A file of the node pages.
pub open spec fn in_node_pages(name: Seq<char>) -> bool {
    starts_with(name, "nodepages/"@) || contains_text(name, "/nodepages/"@)
}

/// A node page.
pub open spec fn node_page(name: Seq<char>) -> bool {
    in_node_pages(name) && (ends_with(name, ".json"@) || ends_with(name, ".json.gz"@))
}

/// Whether a file belongs to the node pages.
pub fn is_in_node_pages(name: &str) -> (r: bool)
    ensures
        r == in_node_pages(name@),
{
    let chars = chars_of(name);
    has_prefix(chars.as_slice(), "nodepages/") || has_text(chars.as_slice(), "/nodepages/")
}

/// Whether a file is a node page.
pub fn is_node_page(name: &str) -> (r: bool)
    ensures
        r == node_page(name@),
{
    let chars = chars_of(name);
    is_in_node_pages(name) && (has_suffix(chars.as_slice(), ".json") || has_suffix(
        chars.as_slice(),
        ".json.gz",
    ))
}

/// The nodes that a document of the node pages holds: its `nodes`, or itself.
pub open spec fn page_nodes(page: JsonModel) -> Seq<JsonModel> {
    match items_of(page, "nodes"@) {
        Some(items) => items,
        None => seq![page],
    }
}

/// The number is an integer of 64 bits with a sign.
pub open spec fn is_i64(number: NumberModel) -> bool {
    number matches NumberModel::Integer { value } && i64::MIN <= value <= i64::MAX
}

/// The id of a node, where it is a number, is an integer of 64 bits with a sign.
pub open spec fn id_fits(node: JsonModel) -> bool {
    id_member(node) matches Some(JsonModel::Number { number }) ==> is_i64(number)
}

/// The ids of all nodes of a page fit.
pub open spec fn page_fits(page: JsonModel) -> bool {
    forall|i: int| 0 <= i < page_nodes(page).len() ==> id_fits(#[trigger] page_nodes(page)[i])
}

/// The document that a node is kept with when it comes from the document `doc`.
pub open spec fn document_for(doc: Seq<char>, id: Seq<char>) -> Seq<char> {
    if starts_with(doc, "nodes/"@) {
        node_document(id)
    } else {
        doc
    }
}

/// The node that an item of a node page describes, where it has an id. A node without usable
/// bounds is one too: it cannot be tested, but its children have to be walked.
pub open spec fn node_of(item: JsonModel, filename: Seq<char>) -> Option<NodeModel> {
    match id_member(item) {
        Some(id) => match scalar_text(id) {
            Some(id) => Some(
                NodeModel {
                    id,
                    doc_filename: document_for(without_gz(filename), id),
                    containing_doc: filename,
                    bounds: bounds_of(item),
                    children: node_children(item),
                },
            ),
            None => None,
        },
        None => None,
    }
}

/// The table with a node added, in place of an earlier one with the same id. Only a node
/// without bounds does not take the place of one that has them.
pub open spec fn with_node(table: Map<Seq<char>, NodeModel>, node: NodeModel) -> Map<
    Seq<char>,
    NodeModel,
> {
    if node.bounds is None && table.contains_key(node.id) && table[node.id].bounds is Some {
        table
    } else {
        table.insert(node.id, node)
    }
}

/// The table with the nodes of a page added, one after the other.
pub open spec fn with_page(
    table: Map<Seq<char>, NodeModel>,
    items: Seq<JsonModel>,
    filename: Seq<char>,
) -> Map<Seq<char>, NodeModel>
    decreases items.len(),
{
    if items.len() == 0 {
        table
    } else {
        let before = with_page(table, items.drop_last(), filename);
        match node_of(items.last(), filename) {
            Some(node) => with_node(before, node),
            None => before,
        }
    }
}

/// Whether the ids of all nodes of a page fit.
pub fn page_ids_fit(page: &Json) -> (r: bool)
    ensures
        r == page_fits(page@),
{
    if let Some(nodes) = page.get("nodes") {
        if let Some(items) = nodes.as_items() {
            let mut i: usize = 0;
            while i < items.len()
                invariant
                    i <= items@.len(),
                    page_nodes(page@) == json_models(items@),
                    forall|k: int| 0 <= k < i ==> id_fits(#[trigger] page_nodes(page@)[k]),
                decreases items@.len() - i,
            {
                assert(page_nodes(page@)[i as int] == items@[i as int]@);
                if !node_id_fits(&items[i]) {
                    return false;
                }
                i += 1;
            }
            return true;
        }
    }
    assert(page_nodes(page@)[0] == page@);
    node_id_fits(page)
}

fn node_id_fits(node: &Json) -> (r: bool)
    ensures
        r == id_fits(node@),
{
    match find_id(node) {
        Some(Json::Number { number }) => match number {
            JsonNumber::Unsigned { natural } => *natural <= i64::MAX as u64,
            JsonNumber::Negative { .. } => true,
            JsonNumber::Fraction { .. } => false,
        },
        _ => true,
    }
}

/// The node that an item of a node page describes.
fn read_node(item: &Json, filename: &str) -> (r: Option<I3SNode>)
    ensures
        match r {
            Some(node) => node_of(item@, filename@) == Some(node@),
            None => node_of(item@, filename@) is None,
        },
{
    let id = match find_id(item) {
        Some(id) => match scalar_string(id) {
            Some(id) => id,
            None => {
                return None;
            },
        },
        None => {
            return None;
        },
    };
    let bounds = parse_node_bounds(item);
    let doc = strip_gz(filename);
    let doc_chars = chars_of(doc.as_str());
    let doc_filename = if has_prefix(doc_chars.as_slice(), "nodes/") {
        node_document_path(id.as_str())
    } else {
        doc
    };
    let children = read_children(item);
    Some(
        I3SNode {
            id,
            doc_filename,
            containing_doc: filename.to_owned(),
            bounds,
            children,
        },
    )
}

/// Add a node to the table.
fn add_node(table: &mut NodeTable, node: I3SNode)
    requires
        old(table).wf(),
    ensures
        final(table).wf(),
        final(table)@ == with_node(old(table)@, node@),
{
    if node.bounds.is_none() {
        if let Some(earlier) = table.get(node.id.as_str()) {
            if earlier.bounds.is_some() {
                return;
            }
        }
    }
    table.insert(node.id.clone(), node);
}

/// Add the nodes of a node page to the table. `filename` is the archive entry that the
/// page was read from.
pub fn add_node_page(table: &mut NodeTable, page: &Json, filename: &str)
    requires
        old(table).wf(),
        page_fits(page@),
    ensures
        final(table).wf(),
        final(table)@ == with_page(old(table)@, page_nodes(page@), filename@),
{
    if let Some(nodes) = page.get("nodes") {
        if let Some(items) = nodes.as_items() {
            let mut i: usize = 0;
            while i < items.len()
                invariant
                    i <= items@.len(),
                    table.wf(),
                    table@ == with_page(
                        old(table)@,
                        json_models(items@).take(i as int),
                        filename@,
                    ),
                decreases items@.len() - i,
            {
                proof {
                    let upto = json_models(items@).take(i + 1);
                    assert(upto.drop_last() =~= json_models(items@).take(i as int));
                    assert(upto.last() == items@[i as int]@);
                }
                if let Some(node) = read_node(&items[i], filename) {
                    add_node(table, node);
                }
                i += 1;
            }
            assert(json_models(items@).take(i as int) =~= json_models(items@));
            return;
        }
    }
    proof {
        let one = seq![page@];
        assert(one.drop_last() =~= Seq::empty());
        assert(with_page(old(table)@, one.drop_last(), filename@) == old(table)@);
    }
    if let Some(node) = read_node(page, filename) {
        add_node(table, node);
    }
}

/// Every node of a page that has an id is in the table then, with bounds or without, and so
/// is every node that was there before; and none that had bounds loses them.
pub proof fn named_nodes_are_all_taken_in(
    table: Map<Seq<char>, NodeModel>,
    items: Seq<JsonModel>,
    filename: Seq<char>,
    id: Seq<char>,
)
    ensures
        with_page(table, items, filename).contains_key(id) <==> table.contains_key(id) || exists|
            i: int,
        |
            0 <= i < items.len() && (node_of(#[trigger] items[i], filename) matches Some(node)
                && node.id == id),
        table.contains_key(id) && table[id].bounds is Some ==> with_page(
            table,
            items,
            filename,
        )[id].bounds is Some,
    decreases items.len(),
{
    if items.len() > 0 {
        let before = items.drop_last();
        named_nodes_are_all_taken_in(table, before, filename, id);
        assert(items[items.len() - 1] == items.last());
        if exists|i: int|
            0 <= i < before.len() && (node_of(#[trigger] before[i], filename) matches Some(node)
                && node.id == id) {
            let i = choose|i: int|
                0 <= i < before.len() && (node_of(#[trigger] before[i], filename) matches Some(
                    node,
                ) && node.id == id);
            assert(items[i] == before[i]);
        }
        if exists|i: int|
            0 <= i < items.len() - 1 && (node_of(#[trigger] items[i], filename) matches Some(node)
                && node.id == id) {
            let i = choose|i: int|
                0 <= i < items.len() - 1 && (node_of(#[trigger] items[i], filename) matches Some(
                    node,
                ) && node.id == id);
            assert(before[i] == items[i]);
        }
    }
}

/// The id that the scene layer's `store.rootNode` names, or `root`.
pub open spec fn root_id(scenelayer: JsonModel) -> Seq<char> {
    let path = match crate::tileset::then_get(scenelayer.get("store"@), "rootNode"@) {
        Some(root) => match root.as_text() {
            Some(text) => text,
            None => "./nodes/root"@,
        },
        None => "./nodes/root"@,
    };
    match base_name(slashed(path)) {
        Some(name) => name,
        None => "root"@,
    }
}

fn root_path(scenelayer: &Json) -> (r: Option<&String>)
    ensures
        match r {
            Some(text) => crate::tileset::then_get(
                scenelayer@.get("store"@),
                "rootNode"@,
            ) matches Some(root) && root.as_text() == Some(text@),
            None => crate::tileset::then_get(
                scenelayer@.get("store"@),
                "rootNode"@,
            ) matches Some(root) ==> root.as_text() is None,
        },
{
    match scenelayer.get("store") {
        Some(store) => match store.get("rootNode") {
            Some(root) => root.as_text(),
            None => None,
        },
        None => None,
    }
}

/// The id of the root node that a scene layer names.
pub fn root_node_id(scenelayer: &Json) -> (id: String)
    ensures
        id@ == root_id(scenelayer@),
{
    let path = match root_path(scenelayer) {
        Some(text) => text.clone(),
        None => "./nodes/root".to_owned(),
    };
    let norm = slashed_chars(path.as_str());
    let norm = string_of(norm.as_slice());
    match file_name(norm.as_str()) {
        Some(name) => name,
        None => "root".to_owned(),
    }
}

/// The bounding sphere of a node is made of the first four items of its `mbs`, each in its
/// place, an item that is no number leaving a gap. A shorter `mbs` gives no bounds, whatever
/// else the node holds.
pub proof fn sphere_is_made_of_the_first_four(node: JsonModel, items: Seq<JsonModel>)
    requires
        node.get("mbs"@) == Some(JsonModel::Array { items }),
    ensures
        items.len() < 4 ==> bounds_of(node) is None,
        items.len() >= 4 ==> (bounds_of(node) matches Some(BoundsModel::Sphere { values }) && {
            &&& values.len() == 4
            &&& forall|i: int|
                0 <= i < 4 ==> #[trigger] values[i] == (match items[i] {
                    JsonModel::Number { number } => Some(number),
                    _ => None,
                })
        }),
{
}

/// Without an `mbs` array the box object of a node gives its bounds: the first three items of
/// its `center` and the first three of its `halfSize`, each in its place. Where either is
/// missing or shorter, there are no bounds.
pub proof fn box_is_made_of_center_and_half_sizes(node: JsonModel, members: Seq<MemberModel>)
    requires
        !(node.get("mbs"@) matches Some(JsonModel::Array { .. })),
        node.get("obb"@) == Some(JsonModel::Object { members }),
    ensures
        match (
            (JsonModel::Object { members }).get("center"@),
            (JsonModel::Object { members }).get("halfSize"@),
        ) {
            (
                Some(JsonModel::Array { items: center }),
                Some(JsonModel::Array { items: half_size }),
            ) => if center.len() >= 3 && half_size.len() >= 3 {
                bounds_of(node) matches Some(BoundsModel::Box { center: c, half_size: h }) && {
                    &&& c.len() == 3
                    &&& h.len() == 3
                    &&& forall|i: int|
                        0 <= i < 3 ==> #[trigger] c[i] == (match center[i] {
                            JsonModel::Number { number } => Some(number),
                            _ => None,
                        })
                    &&& forall|i: int|
                        0 <= i < 3 ==> #[trigger] h[i] == (match half_size[i] {
                            JsonModel::Number { number } => Some(number),
                            _ => None,
                        })
                }
            } else {
                bounds_of(node) is None
            },
            _ => bounds_of(node) is None,
        },
{
}

/// Without an `mbs` array a flat `obb` array gives the bounds: its first three items are the
/// centre and the next three the half sizes. A shorter one gives none.
pub proof fn flat_box_is_center_before_half_sizes(node: JsonModel, items: Seq<JsonModel>)
    requires
        !(node.get("mbs"@) matches Some(JsonModel::Array { .. })),
        node.get("obb"@) == Some(JsonModel::Array { items }),
    ensures
        items.len() < 6 ==> bounds_of(node) is None,
        items.len() >= 6 ==> (bounds_of(node) matches Some(
            BoundsModel::Box { center: c, half_size: h },
        ) && {
            &&& c.len() == 3
            &&& h.len() == 3
            &&& forall|i: int|
                0 <= i < 3 ==> #[trigger] c[i] == (match items[i] {
                    JsonModel::Number { number } => Some(number),
                    _ => None,
                })
            &&& forall|i: int|
                0 <= i < 3 ==> #[trigger] h[i] == (match items[i + 3] {
                    JsonModel::Number { number } => Some(number),
                    _ => None,
                })
        }),
{
}

/// A node with neither a sphere nor a box has no bounds.
pub proof fn other_nodes_have_no_bounds(node: JsonModel)
    requires
        !(node.get("mbs"@) matches Some(JsonModel::Array { .. })),
        !(node.get("obb"@) matches Some(JsonModel::Array { .. })),
        !(node.get("obb"@) matches Some(JsonModel::Object { .. })),
    ensures
        bounds_of(node) is None,
{
}

/// Bounds say what they hold, each component in its place.
pub proof fn bounds_say_what_they_hold(bounds: NodeBounds)
    ensures
        match bounds {
            NodeBounds::Sphere { values } => bounds@ matches BoundsModel::Sphere { values: models }
                && models.len() == values@.len() && forall|i: int|
                0 <= i < values@.len() ==> #[trigger] models[i] == (match values@[i] {
                    Some(number) => Some(number@),
                    None => None,
                }),
            NodeBounds::Box { center, half_size } => bounds@ matches BoundsModel::Box {
                center: c,
                half_size: h,
            } && c.len() == center@.len() && h.len() == half_size@.len() && (forall|i: int|
                0 <= i < center@.len() ==> #[trigger] c[i] == (match center@[i] {
                    Some(number) => Some(number@),
                    None => None,
                })) && (forall|i: int|
                0 <= i < half_size@.len() ==> #[trigger] h[i] == (match half_size@[i] {
                    Some(number) => Some(number@),
                    None => None,
                })),
        },
{
}

/// A child is named by a bare text, by a bare number as it is written, or by the `id` of an
/// object; its `index` counts only where it has no `id`. Nothing else names one.
pub proof fn child_is_named_by_text_number_or_id(child: JsonModel)
    ensures
        match child {
            JsonModel::Text { text } => child_id(child) == Some(text),
            JsonModel::Number { number: NumberModel::Integer { value } } => child_id(child) == Some(
                decimal_int(value),
            ),
            JsonModel::Number { number: NumberModel::Fraction { text } } => child_id(child) == Some(
                text,
            ),
            JsonModel::Object { .. } => match child.get("id"@) {
                Some(id) => match id {
                    JsonModel::Text { .. } => child_id(child) == child_id(id),
                    JsonModel::Number { .. } => child_id(child) == child_id(id),
                    _ => child_id(child) is None,
                },
                None => match child.get("index"@) {
                    Some(JsonModel::Text { text }) => child_id(child) == Some(text),
                    Some(JsonModel::Number { number }) => child_id(child) == child_id(
                        JsonModel::Number { number },
                    ),
                    _ => child_id(child) is None,
                },
            },
            _ => child_id(child) is None,
        },
{
}

/// Children are read one after the other.
pub proof fn children_are_read_in_turn(first: Seq<JsonModel>, second: Seq<JsonModel>)
    ensures
        named_ids(first + second) == named_ids(first) + named_ids(second),
    decreases second.len(),
{
    let all = first + second;
    if second.len() == 0 {
        assert(all =~= first);
        assert(named_ids(first) + named_ids(second) =~= named_ids(first));
    } else {
        let front = second.drop_last();
        children_are_read_in_turn(first, front);
        assert(all.drop_last() =~= first + front);
        assert(all.last() == second.last());
        assert(named_ids(all) =~= named_ids(first) + named_ids(second));
    }
}

/// A reference gives the id that it names, and one that names none gives nothing.
pub proof fn reference_gives_its_id(child: JsonModel)
    ensures
        child_id(child) matches Some(id) ==> named_ids(seq![child]) == seq![id],
        child_id(child) is None ==> named_ids(seq![child]).len() == 0,
{
    let one = seq![child];
    assert(one.drop_last() =~= Seq::<JsonModel>::empty());
    assert(named_ids(one.drop_last()) =~= Seq::empty());
    assert(one.last() == child);
    if let Some(id) = child_id(child) {
        assert(named_ids(one) =~= seq![id]);
    }
}

/// The children of a node are those that its `children` array refers to; without such an
/// array it has none.
pub proof fn children_stand_in_the_children_array(node: JsonModel)
    ensures
        match node.get("children"@) {
            Some(JsonModel::Array { items }) => node_children(node) == named_ids(items),
            _ => node_children(node).len() == 0,
        },
{
}

/// The document of a node lies in the directory of its id below `nodes`.
pub proof fn document_lies_in_the_directory_of_its_node(id: Seq<char>)
    ensures
        node_document(id) == "nodes/"@ + id + "/3dNodeIndexDocument.json"@,
{
}

/// A `.gz` at the end of a name is taken off, once; any other name stays as it is.
pub proof fn gz_is_taken_off_the_end(name: Seq<char>)
    ensures
        without_gz(name + ".gz"@) == name,
        (forall|stem: Seq<char>| name != #[trigger] (stem + ".gz"@)) ==> without_gz(name) == name,
{
    reveal_strlit(".gz");
    suffix_is_what_comes_last(name, ".gz"@, name);
    assert((name + ".gz"@).take(name.len() as int) =~= name);
    if ends_with(name, ".gz"@) {
        let stem = name.take(name.len() - 3);
        assert(name == stem + ".gz"@);
    }
}

/// A file belongs to the node pages where its name begins with `nodepages/` or holds
/// `/nodepages/`; it is a node page where, besides, it ends with `.json` or `.json.gz`.
pub proof fn node_pages_lie_in_their_directory(name: Seq<char>, before: Seq<char>)
    ensures
        in_node_pages("nodepages/"@ + name),
        in_node_pages(before + "/nodepages/"@ + name),
        !starts_with(name, "nodepages/"@) && !contains_text(name, "/nodepages/"@)
            ==> !in_node_pages(name),
        node_page("nodepages/"@ + name) <==> ends_with("nodepages/"@ + name, ".json"@) || ends_with(
            "nodepages/"@ + name,
            ".json.gz"@,
        ),
        node_page(before + "/nodepages/"@ + name) <==> ends_with(
            before + "/nodepages/"@ + name,
            ".json"@,
        ) || ends_with(before + "/nodepages/"@ + name, ".json.gz"@),
        node_page(name) ==> in_node_pages(name),
{
    prefix_is_what_comes_first(name, "nodepages/"@, name);
    inner_text_is_what_stands_between(name, before, "/nodepages/"@, name);
}

/// A page holds the nodes of its `nodes` array; a document without one is a node itself.
pub proof fn page_holds_its_nodes(page: JsonModel)
    ensures
        match page.get("nodes"@) {
            Some(JsonModel::Array { items }) => page_nodes(page) == items,
            _ => page_nodes(page) == seq![page],
        },
{
}

/// An id that is a number has to be an integer of 64 bits with a sign; every other id fits.
/// What counts as the id is `id`, and `index` only where there is no `id`.
pub proof fn only_numbers_can_fail_to_fit(node: JsonModel)
    ensures
        ({
            let id = if node.get("id"@) is Some {
                node.get("id"@)
            } else {
                node.get("index"@)
            };
            id_fits(node) == (match id {
                Some(JsonModel::Number { number: NumberModel::Integer { value } }) =>
                    -0x8000_0000_0000_0000 <= value <= 0x7FFF_FFFF_FFFF_FFFF,
                Some(JsonModel::Number { number: NumberModel::Fraction { .. } }) => false,
                _ => true,
            })
        }),
{
}

/// What a node page says of a node: its id, its bounds and its children as they stand there,
/// the page itself as the document that holds it, and as its own document the page without
/// its `.gz` or, where the page lies below `nodes/`, the one in the directory of its id.
pub proof fn node_is_what_its_item_says(item: JsonModel, filename: Seq<char>, id: Seq<char>)
    requires
        ({
            let named = if item.get("id"@) is Some {
                item.get("id"@)
            } else {
                item.get("index"@)
            };
            match named {
                Some(JsonModel::Text { text }) => id == text,
                Some(JsonModel::Number { number }) => id == JsonNumber::written(number),
                _ => false,
            }
        }),
    ensures
        node_of(item, filename) matches Some(node) && {
            &&& node.id == id
            &&& node.containing_doc == filename
            &&& node.bounds == bounds_of(item)
            &&& node.children == node_children(item)
            &&& starts_with(without_gz(filename), "nodes/"@) ==> node.doc_filename
                == node_document(id)
            &&& !starts_with(without_gz(filename), "nodes/"@) ==> node.doc_filename == without_gz(
                filename,
            )
        },
{
}

/// An item without an id, or with one that is neither text nor number, is no node.
pub proof fn item_without_id_is_no_node(item: JsonModel, filename: Seq<char>)
    requires
        match (item.get("id"@), item.get("index"@)) {
            (Some(JsonModel::Text { .. }), _) => false,
            (Some(JsonModel::Number { .. }), _) => false,
            (Some(_), _) => true,
            (None, Some(JsonModel::Text { .. })) => false,
            (None, Some(JsonModel::Number { .. })) => false,
            (None, _) => true,
        },
    ensures
        node_of(item, filename) is None,
{
}

/// The nodes of a page are added one after the other.
pub proof fn nodes_are_added_in_turn(
    table: Map<Seq<char>, NodeModel>,
    first: Seq<JsonModel>,
    second: Seq<JsonModel>,
    filename: Seq<char>,
)
    ensures
        with_page(table, first + second, filename) == with_page(
            with_page(table, first, filename),
            second,
            filename,
        ),
    decreases second.len(),
{
    let all = first + second;
    if second.len() == 0 {
        assert(all =~= first);
    } else {
        nodes_are_added_in_turn(table, first, second.drop_last(), filename);
        assert(all.drop_last() =~= first + second.drop_last());
        assert(all.last() == second.last());
    }
}

/// A node takes the place of an earlier one with its id, unless it has no bounds and that one
/// has; every other node stays as it was. An item that is no node changes nothing.
pub proof fn later_node_counts_unless_it_lacks_bounds(
    table: Map<Seq<char>, NodeModel>,
    item: JsonModel,
    filename: Seq<char>,
    other: Seq<char>,
)
    ensures
        node_of(item, filename) is None ==> with_page(table, seq![item], filename) == table,
        node_of(item, filename) matches Some(node) ==> {
            let after = with_page(table, seq![item], filename);
            &&& after.contains_key(node.id)
            &&& node.bounds is Some ==> after[node.id] == node
            &&& !table.contains_key(node.id) ==> after[node.id] == node
            &&& table.contains_key(node.id) && table[node.id].bounds is None ==> after[node.id]
                == node
            &&& table.contains_key(node.id) && table[node.id].bounds is Some && node.bounds is None
                ==> after[node.id] == table[node.id]
            &&& other != node.id ==> (after.contains_key(other) <==> table.contains_key(other))
            &&& other != node.id && table.contains_key(other) ==> after[other] == table[other]
        },
{
    let one = seq![item];
    assert(one.drop_last() =~= Seq::<JsonModel>::empty());
    assert(with_page(table, one.drop_last(), filename) == table);
    assert(one.last() == item);
}

/// The root of a scene layer is the last name of its `store.rootNode`, whichever way the
/// slashes lean. Where that is missing or no text, it is `root`.
pub proof fn root_is_the_last_name_of_the_root_path(
    scenelayer: JsonModel,
    store: JsonModel,
    dir: Seq<char>,
    name: Seq<char>,
)
    requires
        is_name(name),
    ensures
        scenelayer.get("store"@) is None ==> root_id(scenelayer) == "root"@,
        scenelayer.get("store"@) == Some(store) ==> match store.get("rootNode"@) {
            Some(JsonModel::Text { text }) => {
                &&& text == dir + "/"@ + name ==> root_id(scenelayer) == name
                &&& text == dir + "\\"@ + name ==> root_id(scenelayer) == name
                &&& text == name ==> root_id(scenelayer) == name
                &&& base_name(slashed(text)) is None ==> root_id(scenelayer) == "root"@
                &&& base_name(slashed(text)) matches Some(last) ==> root_id(scenelayer) == last
            },
            _ => root_id(scenelayer) == "root"@,
        },
{
    lemma_default_root();
    reveal_strlit("/");
    reveal_strlit("\\");
    lemma_name_has_no_slashes(name);
    base_name_is_the_last_name(slashed(dir), name);
    assert(slashed(name) =~= name);
    assert(slashed(dir + "/"@ + name) =~= slashed(dir) + "/"@ + name);
    assert(slashed(dir + "\\"@ + name) =~= slashed(dir) + "/"@ + name);
}

/// A name is not changed by turning backslashes.
proof fn lemma_name_has_no_slashes(name: Seq<char>)
    requires
        is_name(name),
    ensures
        slashed(name) == name,
{
    name_is_a_text_without_slashes(name);
    assert forall|i: int| 0 <= i < name.len() implies name[i] != '\\' by {
        if name[i] == '\\' {
            assert(name.contains('\\'));
        }
    }
    assert(slashed(name) =~= name);
}

/// The path that stands in for a missing one leads to `root`.
proof fn lemma_default_root()
    ensures
        base_name(slashed("./nodes/root"@)) == Some("root"@),
{
    reveal_strlit("./nodes/root");
    reveal_strlit("./nodes");
    reveal_strlit("/");
    reveal_strlit("root");
    reveal_strlit(".");
    reveal_strlit("..");
    let root = "root"@;
    assert(root.len() == 4);
    assert(root[0] == 'r' && root[1] == 'o' && root[2] == 'o' && root[3] == 't');
    name_is_a_text_without_slashes(root);
    assert("./nodes"@ + "/"@ + root =~= "./nodes/root"@);
    assert(slashed("./nodes/root"@) =~= "./nodes/root"@);
    base_name_is_the_last_name("./nodes"@, root);
}

/// A page fits where every node on it does.
pub proof fn page_fits_where_every_node_does(page: JsonModel)
    ensures
        page_fits(page) <==> forall|i: int|
            0 <= i < page_nodes(page).len() ==> id_fits(#[trigger] page_nodes(page)[i]),
{
}

} // verus!
