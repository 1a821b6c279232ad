//! The walk over the nodes of an I3S scene layer.
//!
//! The tree of an I3S layer is no strict spatial containment hierarchy: the bounds of a
//! parent do not always cover those of its children. The walk therefore goes through every
//! node that the root leads to, and only the keeping of a node depends on its bounds.
use std::collections::VecDeque;

use vstd::hash_set::StringHashSet;
use vstd::prelude::*;
use vstd::string::*;

use crate::i3s::{root_id, root_node_id, BoundsModel, NodeBounds};
use crate::json::{Json, JsonModel};
use crate::nodes::{I3SNode, NodeModel, NodeTable};

verus! {

/// `meets` can be asked about all bounds, and its answer depends on what the bounds say and
/// on nothing else.
pub open spec fn judges_bounds<F: Fn(&NodeBounds) -> bool>(meets: F) -> bool {
    &&& forall|b: &NodeBounds| #[trigger] call_requires(meets, (b,))
    &&& forall|b1: &NodeBounds, b2: &NodeBounds, r1: bool, r2: bool|
        b1@ == b2@ && #[trigger] call_ensures(meets, (b1,), r1) && #[trigger] call_ensures(
            meets,
            (b2,),
            r2,
        ) ==> r1 == r2
}

/// The answers of `meets`.
pub open spec fn bounds_verdict<F: Fn(&NodeBounds) -> bool>(meets: F) -> spec_fn(
    BoundsModel,
) -> bool {
    |m: BoundsModel| exists|b: &NodeBounds| b@ == m && #[trigger] call_ensures(meets, (b,), true)
}

/// The children of each id: those of its node, none where there is no such node.
pub open spec fn links_of(nodes: Map<Seq<char>, NodeModel>) -> spec_fn(Seq<char>) -> Seq<
    Seq<char>,
> {
    |id: Seq<char>|
        if nodes.contains_key(id) {
            nodes[id].children
        } else {
            Seq::empty()
        }
}

/// Each id of the trail is a child of the one before.
pub open spec fn is_trail(
    links: spec_fn(Seq<char>) -> Seq<Seq<char>>,
    trail: Seq<Seq<char>>,
) -> bool {
    &&& trail.len() > 0
    &&& forall|i: int|
        0 <= i < trail.len() - 1 ==> #[trigger] links(trail[i]).contains(trail[i + 1])
}

/// A trail leads from `root` to `id`.
pub open spec fn reaches(
    links: spec_fn(Seq<char>) -> Seq<Seq<char>>,
    root: Seq<char>,
    id: Seq<char>,
) -> bool {
    exists|trail: Seq<Seq<char>>| #[trigger]
        is_trail(links, trail) && trail[0] == root && trail.last() == id
}

/// A set that holds the root, and with each id all its children.
pub open spec fn is_closed(
    links: spec_fn(Seq<char>) -> Seq<Seq<char>>,
    root: Seq<char>,
    seen: Set<Seq<char>>,
) -> bool {
    &&& seen.contains(root)
    &&& forall|id: Seq<char>, child: Seq<char>|
        seen.contains(id) && #[trigger] links(id).contains(child) ==> seen.contains(child)
}

/// The root leads to itself.
pub proof fn root_is_reached(links: spec_fn(Seq<char>) -> Seq<Seq<char>>, root: Seq<char>)
    ensures
        reaches(links, root, root),
{
    let trail = seq![root];
    assert(is_trail(links, trail));
}

/// Where the root leads to an id, it leads to the children of that id.
pub proof fn child_is_reached(
    links: spec_fn(Seq<char>) -> Seq<Seq<char>>,
    root: Seq<char>,
    id: Seq<char>,
    child: Seq<char>,
)
    requires
        reaches(links, root, id),
        links(id).contains(child),
    ensures
        reaches(links, root, child),
{
    let trail = choose|trail: Seq<Seq<char>>| #[trigger]
        is_trail(links, trail) && trail[0] == root && trail.last() == id;
    let longer = trail.push(child);
    assert forall|i: int| 0 <= i < longer.len() - 1 implies #[trigger] links(longer[i]).contains(
        longer[i + 1],
    ) by {
        if i < trail.len() - 1 {
            assert(links(trail[i]).contains(trail[i + 1]));
        }
    }
    assert(is_trail(links, longer));
}

/// A closed set holds everything that the root leads to.
pub proof fn closed_holds_all(
    links: spec_fn(Seq<char>) -> Seq<Seq<char>>,
    root: Seq<char>,
    seen: Set<Seq<char>>,
    id: Seq<char>,
)
    requires
        is_closed(links, root, seen),
        reaches(links, root, id),
    ensures
        seen.contains(id),
{
    let trail = choose|trail: Seq<Seq<char>>| #[trigger]
        is_trail(links, trail) && trail[0] == root && trail.last() == id;
    lemma_trail_in_closed(links, root, seen, trail, trail.len() - 1);
}

proof fn lemma_trail_in_closed(
    links: spec_fn(Seq<char>) -> Seq<Seq<char>>,
    root: Seq<char>,
    seen: Set<Seq<char>>,
    trail: Seq<Seq<char>>,
    i: int,
)
    requires
        is_closed(links, root, seen),
        is_trail(links, trail),
        trail[0] == root,
        0 <= i < trail.len(),
    ensures
        seen.contains(trail[i]),
    decreases i,
{
    if i > 0 {
        lemma_trail_in_closed(links, root, seen, trail, i - 1);
        assert(links(trail[i - 1]).contains(trail[i - 1 + 1]));
    }
}

/// There are bounds, and they meet the clip polygon.
pub open spec fn is_met(verdict: spec_fn(BoundsModel) -> bool, bounds: Option<BoundsModel>) -> bool {
    match bounds {
        Some(bounds) => verdict(bounds),
        None => false,
    }
}

/// The node `id` is kept: the root leads to it, and its own bounds meet the clip polygon.
pub open spec fn is_kept(
    nodes: Map<Seq<char>, NodeModel>,
    root: Seq<char>,
    verdict: spec_fn(BoundsModel) -> bool,
    id: Seq<char>,
) -> bool {
    &&& nodes.contains_key(id)
    &&& reaches(links_of(nodes), root, id)
    &&& is_met(verdict, nodes[id].bounds)
}

/// A document that a kept node needs: its own, or the one that holds it.
pub open spec fn is_kept_document(
    nodes: Map<Seq<char>, NodeModel>,
    root: Seq<char>,
    verdict: spec_fn(BoundsModel) -> bool,
    name: Seq<char>,
) -> bool {
    exists|id: Seq<char>| #[trigger]
        is_kept(nodes, root, verdict, id) && (name == nodes[id].containing_doc || name
            == nodes[id].doc_filename)
}

/// The id of a kept node.
pub open spec fn is_kept_id(
    nodes: Map<Seq<char>, NodeModel>,
    root: Seq<char>,
    verdict: spec_fn(BoundsModel) -> bool,
    name: Seq<char>,
) -> bool {
    exists|id: Seq<char>| #[trigger]
        is_kept(nodes, root, verdict, id) && name == nodes[id].id
}

/// Where the walk starts: at node `0`, which is the root of every paginated layout; else
/// at the node that the scene layer names; else at `root`.
pub open spec fn start_of(nodes: Map<Seq<char>, NodeModel>, scenelayer: JsonModel) -> Option<
    Seq<char>,
> {
    if nodes.contains_key("0"@) {
        Some("0"@)
    } else if nodes.contains_key(root_id(scenelayer)) {
        Some(root_id(scenelayer))
    } else if nodes.contains_key("root"@) {
        Some("root"@)
    } else {
        None
    }
}

/// The id that the walk starts at.
pub fn find_start(nodes: &NodeTable, scenelayer: &Json) -> (r: Option<String>)
    requires
        nodes.wf(),
    ensures
        match r {
            Some(id) => start_of(nodes@, scenelayer@) == Some(id@),
            None => start_of(nodes@, scenelayer@) is None,
        },
{
    if nodes.contains_key("0") {
        return Some("0".to_owned());
    }
    let named = root_node_id(scenelayer);
    if nodes.contains_key(named.as_str()) {
        return Some(named);
    }
    if nodes.contains_key("root") {
        return Some("root".to_owned());
    }
    None
}

/// The id stands in the queue.
pub open spec fn queued(queue: Seq<String>, id: Seq<char>) -> bool {
    exists|i: int| 0 <= i < queue.len() && (#[trigger] queue[i])@ == id
}

/// What the walk knows: everything seen or queued is reached, and the children of what was
/// seen are seen or queued.
spec fn walk_inv(
    links: spec_fn(Seq<char>) -> Seq<Seq<char>>,
    root: Seq<char>,
    seen: Set<Seq<char>>,
    queue: Seq<String>,
) -> bool {
    &&& seen.contains(root) || queued(queue, root)
    &&& forall|id: Seq<char>| #[trigger] seen.contains(id) ==> reaches(links, root, id)
    &&& forall|i: int| 0 <= i < queue.len() ==> reaches(links, root, (#[trigger] queue[i])@)
    &&& forall|id: Seq<char>, child: Seq<char>|
        seen.contains(id) && #[trigger] links(id).contains(child) ==> seen.contains(child)
            || queued(queue, child)
}

/// What was kept of the nodes that were seen.
spec fn kept_inv(
    nodes: Map<Seq<char>, NodeModel>,
    verdict: spec_fn(BoundsModel) -> bool,
    seen: Set<Seq<char>>,
    docs_before: Set<Seq<char>>,
    docs: Set<Seq<char>>,
    ids_before: Set<Seq<char>>,
    ids: Set<Seq<char>>,
) -> bool {
    &&& forall|name: Seq<char>| #[trigger]
        docs.contains(name) <==> docs_before.contains(name) || exists|id: Seq<char>| #[trigger]
            seen.contains(id) && nodes.contains_key(id) && is_met(verdict, nodes[id].bounds) && (name
                == nodes[id].containing_doc || name == nodes[id].doc_filename)
    &&& forall|name: Seq<char>| #[trigger]
        ids.contains(name) <==> ids_before.contains(name) || exists|id: Seq<char>| #[trigger]
            seen.contains(id) && nodes.contains_key(id) && is_met(verdict, nodes[id].bounds) && name
                == nodes[id].id
}

/// Add the children of a node that were not seen yet to the queue.
fn enqueue_children(queue: &mut VecDeque<String>, node: &I3SNode, seen: &StringHashSet)
    ensures
        final(queue)@.len() >= old(queue)@.len(),
        forall|i: int| 0 <= i < old(queue)@.len() ==> final(queue)@[i] == old(queue)@[i],
        forall|i: int|
            old(queue)@.len() <= i < final(queue)@.len() ==> node@.children.contains(
                (#[trigger] final(queue)@[i])@,
            ),
        forall|child: Seq<char>|
            #![trigger node@.children.contains(child)]
            node@.children.contains(child) ==> seen@.contains(child) || queued(
                final(queue)@,
                child,
            ),
{
    let mut i: usize = 0;
    while i < node.children.len()
        invariant
            i <= node.children@.len(),
            queue@.len() >= old(queue)@.len(),
            forall|k: int| 0 <= k < old(queue)@.len() ==> queue@[k] == old(queue)@[k],
            forall|k: int|
                old(queue)@.len() <= k < queue@.len() ==> node@.children.contains(
                    (#[trigger] queue@[k])@,
                ),
            forall|k: int|
                0 <= k < i ==> seen@.contains(#[trigger] node@.children[k]) || queued(
                    queue@,
                    node@.children[k],
                ),
        decreases node.children@.len() - i,
    {
        assert(node@.children[i as int] == node.children@[i as int].id@);
        assert(node@.children.contains(node@.children[i as int]));
        let ghost before = queue@;
        if !seen.contains(node.children[i].id.as_str()) {
            queue.push_back(node.children[i].id.clone());
            assert(queue@[before.len() as int]@ == node@.children[i as int]);
        }
        proof {
            assert forall|k: int| 0 <= k < i + 1 implies seen@.contains(
                #[trigger] node@.children[k],
            ) || queued(queue@, node@.children[k]) by {
                if k < i && !seen@.contains(node@.children[k]) {
                    let j = choose|j: int|
                        0 <= j < before.len() && (#[trigger] before[j])@ == node@.children[k];
                    assert(queue@[j]@ == node@.children[k]);
                }
            }
        }
        i += 1;
    }
    assert forall|child: Seq<char>|
        #![trigger node@.children.contains(child)]
        node@.children.contains(child) implies seen@.contains(child) || queued(queue@, child) by {
        let k = choose|k: int| 0 <= k < node@.children.len() && node@.children[k] == child;
        assert(seen@.contains(node@.children[k]) || queued(queue@, node@.children[k]));
    }
}

proof fn lemma_step(
    links: spec_fn(Seq<char>) -> Seq<Seq<char>>,
    root: Seq<char>,
    seen: Set<Seq<char>>,
    queue: Seq<String>,
    rest: Seq<String>,
    longer: Seq<String>,
)
    requires
        walk_inv(links, root, seen, queue),
        queue.len() > 0,
        rest =~= queue.subrange(1, queue.len() as int),
        longer.len() >= rest.len(),
        forall|i: int| 0 <= i < rest.len() ==> longer[i] == rest[i],
        forall|i: int|
            rest.len() <= i < longer.len() ==> links(queue[0]@).contains((#[trigger] longer[i])@),
        forall|child: Seq<char>|
            #![trigger links(queue[0]@).contains(child)]
            links(queue[0]@).contains(child) ==> seen.insert(queue[0]@).contains(child) || queued(
                longer,
                child,
            ),
    ensures
        walk_inv(links, root, seen.insert(queue[0]@), longer),
{
    let id0 = queue[0]@;
    let now = seen.insert(id0);
    assert forall|id: Seq<char>| queued(queue, id) && id != id0 implies queued(longer, id) by {
        let j = choose|j: int| 0 <= j < queue.len() && (#[trigger] queue[j])@ == id;
        assert(j > 0);
        assert(rest[j - 1] == queue[j]);
        assert(longer[j - 1]@ == id);
    }
    assert(reaches(links, root, id0));
    assert forall|i: int| 0 <= i < longer.len() implies reaches(
        links,
        root,
        (#[trigger] longer[i])@,
    ) by {
        if i < rest.len() {
            assert(longer[i] == queue[i + 1]);
        } else {
            child_is_reached(links, root, id0, longer[i]@);
        }
    }
    assert forall|id: Seq<char>, child: Seq<char>|
        now.contains(id) && #[trigger] links(id).contains(child) implies now.contains(child)
        || queued(longer, child) by {
        if id != id0 {
            assert(seen.contains(child) || queued(queue, child));
        }
    }
}

/// Walk the nodes of a scene layer from its root, and keep the documents and the ids of
/// those that meet the clip polygon. `meets` says which bounds do.
pub fn filter_i3s_scenelayer<F: Fn(&NodeBounds) -> bool>(
    scenelayer: &Json,
    all_nodes: &NodeTable,
    meets: &F,
    keep_uris: &mut StringHashSet,
    kept_node_ids: &mut StringHashSet,
)
    requires
        all_nodes.wf(),
        judges_bounds(*meets),
    ensures
        match start_of(all_nodes@, scenelayer@) {
            Some(root) => {
                &&& forall|name: Seq<char>| #[trigger]
                    final(keep_uris)@.contains(name) <==> old(keep_uris)@.contains(name)
                        || is_kept_document(all_nodes@, root, bounds_verdict(*meets), name)
                &&& forall|name: Seq<char>| #[trigger]
                    final(kept_node_ids)@.contains(name) <==> old(kept_node_ids)@.contains(name)
                        || is_kept_id(all_nodes@, root, bounds_verdict(*meets), name)
            },
            None => final(keep_uris)@ == old(keep_uris)@ && final(kept_node_ids)@ == old(
                kept_node_ids,
            )@,
        },
{
    let root = match find_start(all_nodes, scenelayer) {
        Some(root) => root,
        None => {
            return;
        },
    };
    let ghost nodes = all_nodes@;
    let ghost links = links_of(nodes);
    let ghost start = root@;
    let ghost verdict = bounds_verdict(*meets);
    let mut queue: VecDeque<String> = VecDeque::new();
    let mut visited = StringHashSet::new();
    queue.push_back(root);
    proof {
        assert(queue@[0]@ == start);
        root_is_reached(links, start);
    }
    while queue.len() > 0
        invariant
            all_nodes.wf(),
            judges_bounds(*meets),
            nodes == all_nodes@,
            links == links_of(nodes),
            verdict == bounds_verdict(*meets),
            walk_inv(links, start, visited@, queue@),
            kept_inv(
                nodes,
                verdict,
                visited@,
                old(keep_uris)@,
                keep_uris@,
                old(kept_node_ids)@,
                kept_node_ids@,
            ),
        decreases all_nodes.unseen(visited@), queue@.len(),
    {
        let ghost before = queue@;
        let ghost seen = visited@;
        let ghost docs = keep_uris@;
        let ghost ids = kept_node_ids@;
        let node_id = match queue.pop_front() {
            Some(id) => id,
            None => {
                assert(false);
                return;
            },
        };
        let ghost rest = queue@;
        proof {
            assert(node_id == before[0]);
            assert(rest =~= before.subrange(1, before.len() as int));
            all_nodes.lemma_unseen(seen, node_id@);
        }
        if !visited.insert(node_id.clone()) {
            proof {
                assert(visited@ =~= seen);
                assert forall|id: Seq<char>| queued(before, id) implies seen.contains(id) || queued(
                    rest,
                    id,
                ) by {
                    let j = choose|j: int| 0 <= j < before.len() && (#[trigger] before[j])@ == id;
                    if j > 0 {
                        assert(rest[j - 1]@ == id);
                    }
                }
                assert forall|i: int| 0 <= i < rest.len() implies reaches(
                    links,
                    start,
                    (#[trigger] rest[i])@,
                ) by {
                    assert(rest[i] == before[i + 1]);
                }
            }
            continue;
        }
        match all_nodes.get(node_id.as_str()) {
            None => {
                proof {
                    lemma_step(links, start, seen, before, rest, rest);
                    lemma_kept_same(
                        nodes,
                        verdict,
                        seen,
                        node_id@,
                        old(keep_uris)@,
                        docs,
                        old(kept_node_ids)@,
                        ids,
                    );
                }
            },
            Some(node) => {
                enqueue_children(&mut queue, node, &visited);
                proof {
                    assert(links(node_id@) == node@.children);
                    lemma_step(links, start, seen, before, rest, queue@);
                }
                let hit = match &node.bounds {
                    Some(bounds) => {
                        let hit = meets(bounds);
                        assert(hit == verdict(bounds@));
                        hit
                    },
                    None => false,
                };
                assert(hit == is_met(verdict, node@.bounds));
                if hit {
                    keep_uris.insert(node.containing_doc.clone());
                    keep_uris.insert(node.doc_filename.clone());
                    kept_node_ids.insert(node.id.clone());
                    proof {
                        lemma_kept_more(
                            nodes,
                            verdict,
                            seen,
                            node_id@,
                            old(keep_uris)@,
                            docs,
                            old(kept_node_ids)@,
                            ids,
                        );
                    }
                } else {
                    proof {
                        lemma_kept_same(
                            nodes,
                            verdict,
                            seen,
                            node_id@,
                            old(keep_uris)@,
                            docs,
                            old(kept_node_ids)@,
                            ids,
                        );
                    }
                }
            },
        }
    }
    proof {
        assert forall|id: Seq<char>, child: Seq<char>|
            visited@.contains(id) && #[trigger] links(id).contains(child) implies visited@.contains(
            child,
        ) by {
            assert(visited@.contains(child) || queued(queue@, child));
        }
        assert(is_closed(links, start, visited@));
        assert forall|id: Seq<char>|
            (nodes.contains_key(id) && visited@.contains(id) && is_met(verdict, nodes[id].bounds))
                <==> #[trigger] is_kept(nodes, start, verdict, id) by {
            if reaches(links, start, id) {
                closed_holds_all(links, start, visited@, id);
            }
        }
        assert forall|name: Seq<char>| #[trigger]
            keep_uris@.contains(name) <==> old(keep_uris)@.contains(name) || is_kept_document(
                nodes,
                start,
                verdict,
                name,
            ) by {
            if is_kept_document(nodes, start, verdict, name) {
                let id = choose|id: Seq<char>| #[trigger]
                    is_kept(nodes, start, verdict, id) && (name == nodes[id].containing_doc
                        || name == nodes[id].doc_filename);
                assert(visited@.contains(id));
            }
            if keep_uris@.contains(name) && !old(keep_uris)@.contains(name) {
                let id = choose|id: Seq<char>| #[trigger]
                    visited@.contains(id) && nodes.contains_key(id) && is_met(verdict, nodes[id].bounds)
                        && (name == nodes[id].containing_doc || name == nodes[id].doc_filename);
                assert(is_kept(nodes, start, verdict, id));
            }
        }
        assert forall|name: Seq<char>| #[trigger]
            kept_node_ids@.contains(name) <==> old(kept_node_ids)@.contains(name) || is_kept_id(
                nodes,
                start,
                verdict,
                name,
            ) by {
            if is_kept_id(nodes, start, verdict, name) {
                let id = choose|id: Seq<char>| #[trigger]
                    is_kept(nodes, start, verdict, id) && name == nodes[id].id;
                assert(visited@.contains(id));
            }
            if kept_node_ids@.contains(name) && !old(kept_node_ids)@.contains(name) {
                let id = choose|id: Seq<char>| #[trigger]
                    visited@.contains(id) && nodes.contains_key(id) && is_met(verdict, nodes[id].bounds)
                        && name == nodes[id].id;
                assert(is_kept(nodes, start, verdict, id));
            }
        }
    }
}

proof fn lemma_kept_same(
    nodes: Map<Seq<char>, NodeModel>,
    verdict: spec_fn(BoundsModel) -> bool,
    seen: Set<Seq<char>>,
    key: Seq<char>,
    docs_before: Set<Seq<char>>,
    docs: Set<Seq<char>>,
    ids_before: Set<Seq<char>>,
    ids: Set<Seq<char>>,
)
    requires
        kept_inv(nodes, verdict, seen, docs_before, docs, ids_before, ids),
        nodes.contains_key(key) ==> !is_met(verdict, nodes[key].bounds),
    ensures
        kept_inv(nodes, verdict, seen.insert(key), docs_before, docs, ids_before, ids),
{
    let now = seen.insert(key);
    assert forall|name: Seq<char>| #[trigger]
        docs.contains(name) <==> docs_before.contains(name) || exists|id: Seq<char>| #[trigger]
            now.contains(id) && nodes.contains_key(id) && is_met(verdict, nodes[id].bounds) && (name
                == nodes[id].containing_doc || name == nodes[id].doc_filename) by {
        if docs.contains(name) && !docs_before.contains(name) {
            let id = choose|id: Seq<char>| #[trigger]
                seen.contains(id) && nodes.contains_key(id) && is_met(verdict, nodes[id].bounds) && (name
                    == nodes[id].containing_doc || name == nodes[id].doc_filename);
            assert(now.contains(id));
        }
    }
    assert forall|name: Seq<char>| #[trigger]
        ids.contains(name) <==> ids_before.contains(name) || exists|id: Seq<char>| #[trigger]
            now.contains(id) && nodes.contains_key(id) && is_met(verdict, nodes[id].bounds) && name
                == nodes[id].id by {
        if ids.contains(name) && !ids_before.contains(name) {
            let id = choose|id: Seq<char>| #[trigger]
                seen.contains(id) && nodes.contains_key(id) && is_met(verdict, nodes[id].bounds) && name
                    == nodes[id].id;
            assert(now.contains(id));
        }
    }
}

proof fn lemma_kept_more(
    nodes: Map<Seq<char>, NodeModel>,
    verdict: spec_fn(BoundsModel) -> bool,
    seen: Set<Seq<char>>,
    key: Seq<char>,
    docs_before: Set<Seq<char>>,
    docs: Set<Seq<char>>,
    ids_before: Set<Seq<char>>,
    ids: Set<Seq<char>>,
)
    requires
        kept_inv(nodes, verdict, seen, docs_before, docs, ids_before, ids),
        nodes.contains_key(key),
        is_met(verdict, nodes[key].bounds),
    ensures
        kept_inv(
            nodes,
            verdict,
            seen.insert(key),
            docs_before,
            docs.insert(nodes[key].containing_doc).insert(nodes[key].doc_filename),
            ids_before,
            ids.insert(nodes[key].id),
        ),
{
    let now = seen.insert(key);
    let more_docs = docs.insert(nodes[key].containing_doc).insert(nodes[key].doc_filename);
    let more_ids = ids.insert(nodes[key].id);
    assert(now.contains(key));
    assert forall|name: Seq<char>| #[trigger]
        more_docs.contains(name) <==> docs_before.contains(name) || exists|id: Seq<char>| #[trigger]
            now.contains(id) && nodes.contains_key(id) && is_met(verdict, nodes[id].bounds) && (name
                == nodes[id].containing_doc || name == nodes[id].doc_filename) by {
        if docs.contains(name) && !docs_before.contains(name) {
            let id = choose|id: Seq<char>| #[trigger]
                seen.contains(id) && nodes.contains_key(id) && is_met(verdict, nodes[id].bounds) && (name
                    == nodes[id].containing_doc || name == nodes[id].doc_filename);
            assert(now.contains(id));
        }
    }
    assert forall|name: Seq<char>| #[trigger]
        more_ids.contains(name) <==> ids_before.contains(name) || exists|id: Seq<char>| #[trigger]
            now.contains(id) && nodes.contains_key(id) && is_met(verdict, nodes[id].bounds) && name
                == nodes[id].id by {
        if ids.contains(name) && !ids_before.contains(name) {
            let id = choose|id: Seq<char>| #[trigger]
                seen.contains(id) && nodes.contains_key(id) && is_met(verdict, nodes[id].bounds) && name
                    == nodes[id].id;
            assert(now.contains(id));
        }
    }
}

/// Whether a node is kept does not depend on the bounds of any other node: a node that
/// meets the clip polygon is kept below parents that do not.
pub proof fn keeping_ignores_other_bounds(
    nodes: Map<Seq<char>, NodeModel>,
    others: Map<Seq<char>, NodeModel>,
    root: Seq<char>,
    verdict: spec_fn(BoundsModel) -> bool,
    id: Seq<char>,
)
    requires
        nodes.dom() == others.dom(),
        forall|key: Seq<char>| #[trigger]
            nodes.contains_key(key) ==> nodes[key].children == others[key].children,
        nodes.contains_key(id) ==> nodes[id].bounds == others[id].bounds,
    ensures
        is_kept(nodes, root, verdict, id) == is_kept(others, root, verdict, id),
{
    assert forall|key: Seq<char>| nodes.contains_key(key) == others.contains_key(key) by {
        assert(nodes.dom().contains(key) == others.dom().contains(key));
    }
    assert(links_of(nodes) =~= links_of(others));
}

/// A node below any parent, kept, missed or without bounds, is kept where its own bounds
/// meet the clip polygon.
pub proof fn child_of_any_parent_is_kept(
    nodes: Map<Seq<char>, NodeModel>,
    root: Seq<char>,
    verdict: spec_fn(BoundsModel) -> bool,
    parent: Seq<char>,
    child: Seq<char>,
)
    requires
        nodes.contains_key(parent),
        reaches(links_of(nodes), root, parent),
        nodes[parent].children.contains(child),
        nodes.contains_key(child),
    ensures
        is_kept(nodes, root, verdict, child) == is_met(verdict, nodes[child].bounds),
{
    child_is_reached(links_of(nodes), root, parent, child);
}

/// The walk starts at node `0` wherever there is one, whatever the scene layer names and
/// whatever other nodes there are. Only without a node `0` does it start at the node that the
/// scene layer names, and only without that one at `root`.
pub proof fn node_zero_comes_first(nodes: Map<Seq<char>, NodeModel>, scenelayer: JsonModel)
    ensures
        nodes.dom().contains("0"@) ==> start_of(nodes, scenelayer) == Some("0"@),
        !nodes.dom().contains("0"@) && nodes.dom().contains(root_id(scenelayer)) ==> start_of(
            nodes,
            scenelayer,
        ) == Some(root_id(scenelayer)),
        !nodes.dom().contains("0"@) && !nodes.dom().contains(root_id(scenelayer))
            && nodes.dom().contains("root"@) ==> start_of(nodes, scenelayer) == Some("root"@),
        start_of(nodes, scenelayer) is None <==> !nodes.dom().contains("0"@)
            && !nodes.dom().contains(root_id(scenelayer)) && !nodes.dom().contains("root"@),
{
}

/// What the scene layer names counts only without a node `0`: with one, every scene layer
/// starts the walk at the same node.
pub proof fn node_zero_outweighs_the_scene_layer(
    nodes: Map<Seq<char>, NodeModel>,
    node: NodeModel,
    one: JsonModel,
    other: JsonModel,
)
    ensures
        start_of(nodes.insert("0"@, node), one) == Some("0"@),
        start_of(nodes.insert("0"@, node), one) == start_of(nodes.insert("0"@, node), other),
{
}

/// The walk starts at a node that is there.
pub proof fn start_is_a_node(nodes: Map<Seq<char>, NodeModel>, scenelayer: JsonModel)
    ensures
        start_of(nodes, scenelayer) matches Some(id) ==> nodes.dom().contains(id),
{
}

/// The walk follows the children of every node, and nothing else.
pub proof fn walk_follows_children(nodes: Map<Seq<char>, NodeModel>, id: Seq<char>)
    ensures
        nodes.dom().contains(id) ==> links_of(nodes)(id) == nodes[id].children,
        !nodes.dom().contains(id) ==> links_of(nodes)(id).len() == 0,
{
}

/// What the root leads to beside itself is a child of something that it leads to.
pub proof fn reached_by_a_parent(
    links: spec_fn(Seq<char>) -> Seq<Seq<char>>,
    root: Seq<char>,
    id: Seq<char>,
)
    requires
        reaches(links, root, id),
        id != root,
    ensures
        exists|parent: Seq<char>| #[trigger]
            reaches(links, root, parent) && links(parent).contains(id),
{
    let trail = choose|trail: Seq<Seq<char>>| #[trigger]
        is_trail(links, trail) && trail[0] == root && trail.last() == id;
    let n = trail.len() - 1;
    let front = trail.drop_last();
    assert forall|i: int| 0 <= i < front.len() - 1 implies #[trigger] links(front[i]).contains(
        front[i + 1],
    ) by {
        assert(links(trail[i]).contains(trail[i + 1]));
    }
    assert(is_trail(links, front));
    assert(front[0] == root);
    assert(reaches(links, root, front.last()));
    assert(links(trail[n - 1]).contains(trail[n - 1 + 1]));
}

/// A node that the root leads to is kept where it has bounds and they meet the clip polygon.
/// A node without bounds is never kept, nor is one that is not reached.
pub proof fn kept_nodes_are_reached_and_met(
    nodes: Map<Seq<char>, NodeModel>,
    root: Seq<char>,
    verdict: spec_fn(BoundsModel) -> bool,
    id: Seq<char>,
)
    ensures
        is_kept(nodes, root, verdict, id) <==> nodes.dom().contains(id) && reaches(
            links_of(nodes),
            root,
            id,
        ) && (match nodes[id].bounds {
            Some(bounds) => verdict(bounds),
            None => false,
        }),
{
}

/// With a kept node its id, its own document and the document that holds it are kept.
pub proof fn kept_node_keeps_its_documents(
    nodes: Map<Seq<char>, NodeModel>,
    root: Seq<char>,
    verdict: spec_fn(BoundsModel) -> bool,
    id: Seq<char>,
)
    requires
        is_kept(nodes, root, verdict, id),
    ensures
        is_kept_document(nodes, root, verdict, nodes[id].doc_filename),
        is_kept_document(nodes, root, verdict, nodes[id].containing_doc),
        is_kept_id(nodes, root, verdict, nodes[id].id),
{
}

/// Nothing else is kept: every document and every id that is kept belongs to a kept node.
pub proof fn kept_documents_have_a_node(
    nodes: Map<Seq<char>, NodeModel>,
    root: Seq<char>,
    verdict: spec_fn(BoundsModel) -> bool,
    name: Seq<char>,
)
    ensures
        is_kept_document(nodes, root, verdict, name) ==> exists|id: Seq<char>| #[trigger]
            is_kept(nodes, root, verdict, id) && (nodes[id].doc_filename == name
                || nodes[id].containing_doc == name),
        is_kept_id(nodes, root, verdict, name) ==> exists|id: Seq<char>| #[trigger]
            is_kept(nodes, root, verdict, id) && nodes[id].id == name,
{
}

/// The verdict on bounds is what `meets` answers about them.
pub proof fn bounds_verdict_is_the_answer<F: Fn(&NodeBounds) -> bool>(
    meets: F,
    bounds: &NodeBounds,
    answer: bool,
)
    requires
        judges_bounds(meets),
        call_ensures(meets, (bounds,), answer),
    ensures
        bounds_verdict(meets)(bounds@) == answer,
{
    if answer {
        assert(bounds@ == bounds@ && call_ensures(meets, (bounds,), true));
    }
}

/// The start that is found is node `0` wherever there is one, and else the node that the scene
/// layer names, and else `root`.
pub proof fn start_that_is_found_is_node_zero_first(
    nodes: &NodeTable,
    scenelayer: &Json,
    r: Option<String>,
)
    requires
        call_ensures(find_start, (nodes, scenelayer), r),
    ensures
        nodes@.dom().contains("0"@) ==> (r matches Some(id) && id@ == "0"@),
        !nodes@.dom().contains("0"@) && nodes@.dom().contains(root_id(scenelayer@)) ==> (
        r matches Some(id) && id@ == root_id(scenelayer@)),
        !nodes@.dom().contains("0"@) && !nodes@.dom().contains(root_id(scenelayer@))
            && nodes@.dom().contains("root"@) ==> (r matches Some(id) && id@ == "root"@),
        r is None ==> !nodes@.dom().contains("0"@) && !nodes@.dom().contains(
            root_id(scenelayer@),
        ) && !nodes@.dom().contains("root"@),
{
}

} // verus!
