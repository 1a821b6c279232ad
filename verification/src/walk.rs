//! Walks over documents that are fetched one by one: the nested tilesets of a 3D Tiles
//! archive, and the node documents of an I3S archive without node pages.
//!
//! A walk hands out what to fetch next and takes in what was fetched, in whatever order the
//! fetches end.
use std::collections::VecDeque;

use vstd::hash_map::StringHashMap;
use vstd::hash_set::StringHashSet;
use vstd::prelude::*;
use vstd::string::*;

use crate::i3s::{
    bounds_of, node_children, node_document, node_document_path, parse_node_bounds, read_children,
    NodeBounds,
};
use crate::json::Json;
use crate::nodes::children_ids;
use crate::text::{ends_with, str_ends_with};
use crate::tileset::texts;
use crate::traversal::{
    bounds_verdict, bounds_verdict_is_the_answer, child_is_reached, closed_holds_all, is_closed,
    judges_bounds, reaches, root_is_reached,
};

verus! {

/// What is left to fetch, and what was handed out already.
pub struct Frontier {
    pub queue: VecDeque<String>,
    pub seen: StringHashSet,
}

/// What a `Frontier` says.
pub struct FrontierModel {
    pub queue: Seq<Seq<char>>,
    pub seen: Set<Seq<char>>,
}

impl View for Frontier {
    type V = FrontierModel;

    open spec fn view(&self) -> FrontierModel {
        FrontierModel { queue: texts(self.queue@), seen: self.seen@ }
    }
}

/// The frontier after the next name was handed out, and that name: the first in the queue
/// that was not handed out before.
pub open spec fn handed_out(queue: Seq<Seq<char>>, seen: Set<Seq<char>>) -> (
    FrontierModel,
    Option<Seq<char>>,
)
    decreases queue.len(),
{
    if queue.len() == 0 {
        (FrontierModel { queue, seen }, None)
    } else if seen.contains(queue[0]) {
        handed_out(queue.drop_first(), seen)
    } else {
        (FrontierModel { queue: queue.drop_first(), seen: seen.insert(queue[0]) }, Some(queue[0]))
    }
}

impl Frontier {
    /// Start with one name.
    pub fn new(root: String) -> (f: Frontier)
        ensures
            f@ == (FrontierModel { queue: seq![root@], seen: Set::empty() }),
    {
        let mut queue: VecDeque<String> = VecDeque::new();
        queue.push_back(root);
        assert(texts(queue@) =~= seq![root@]);
        Frontier { queue, seen: StringHashSet::new() }
    }

    /// Hand out the next name.
    pub fn next(&mut self) -> (r: Option<String>)
        ensures
            final(self)@ == handed_out(old(self)@.queue, old(self)@.seen).0,
            match r {
                Some(name) => handed_out(old(self)@.queue, old(self)@.seen).1 == Some(name@),
                None => handed_out(old(self)@.queue, old(self)@.seen).1 is None,
            },
    {
        while self.queue.len() > 0
            invariant
                handed_out(self@.queue, self@.seen) == handed_out(
                    old(self)@.queue,
                    old(self)@.seen,
                ),
            decreases self.queue@.len(),
        {
            let ghost before = self.queue@;
            let ghost seen = self.seen@;
            match self.queue.pop_front() {
                Some(name) => {
                    proof {
                        assert(texts(before)[0] == name@);
                        assert(texts(self.queue@) =~= texts(before).drop_first());
                    }
                    if self.seen.insert(name.clone()) {
                        return Some(name);
                    }
                    assert(self.seen@ =~= seen);
                },
                None => {},
            }
        }
        None
    }

    /// Add a name to the end of the queue.
    pub fn add_last(&mut self, name: String)
        ensures
            final(self)@ == (FrontierModel {
                queue: old(self)@.queue.push(name@),
                seen: old(self)@.seen,
            }),
    {
        self.queue.push_back(name);
        assert(texts(self.queue@) =~= texts(old(self).queue@).push(name@));
    }
}

/// The links that lead to nested tilesets.
pub open spec fn tileset_links(uris: Seq<Seq<char>>) -> Seq<Seq<char>>
    decreases uris.len(),
{
    if uris.len() == 0 {
        Seq::empty()
    } else if ends_with(uris.last(), ".json"@) {
        tileset_links(uris.drop_last()).push(uris.last())
    } else {
        tileset_links(uris.drop_last())
    }
}

/// The keep set with the links that lead to tile payloads added.
pub open spec fn with_payloads(keep: Set<Seq<char>>, uris: Seq<Seq<char>>) -> Set<Seq<char>>
    decreases uris.len(),
{
    if uris.len() == 0 {
        keep
    } else if ends_with(uris.last(), ".json"@) {
        with_payloads(keep, uris.drop_last())
    } else {
        with_payloads(keep, uris.drop_last()).insert(uris.last())
    }
}

/// The walk over the tilesets of an archive, from `tileset.json` through all that it links
/// to.
pub struct TilesetWalk {
    pub frontier: Frontier,
    /// The files that stay.
    pub keep_uris: StringHashSet,
    /// The clipped tileset documents.
    pub documents: StringHashMap<Json>,
}

impl TilesetWalk {
    /// Start at `tileset.json`.
    pub fn new() -> (walk: TilesetWalk)
        ensures
            walk.frontier@ == (FrontierModel { queue: seq!["tileset.json"@], seen: Set::empty() }),
            walk.keep_uris@ == Set::<Seq<char>>::empty(),
            walk.documents@ == Map::<Seq<char>, Json>::empty(),
    {
        TilesetWalk {
            frontier: Frontier::new("tileset.json".to_owned()),
            keep_uris: StringHashSet::new(),
            documents: StringHashMap::new(),
        }
    }

    /// The next tileset to fetch, each one once.
    pub fn next(&mut self) -> (r: Option<String>)
        ensures
            final(self).frontier@ == handed_out(
                old(self).frontier@.queue,
                old(self).frontier@.seen,
            ).0,
            match r {
                Some(name) => handed_out(old(self).frontier@.queue, old(self).frontier@.seen).1
                    == Some(name@),
                None => handed_out(old(self).frontier@.queue, old(self).frontier@.seen).1 is None,
            },
            final(self).keep_uris@ == old(self).keep_uris@,
            final(self).documents@ == old(self).documents@,
    {
        self.frontier.next()
    }

    /// Take in a clipped tileset: it stays, the payloads that it links to stay, and the
    /// tilesets that it links to are fetched in turn.
    pub fn absorb(&mut self, path: String, document: Json, uris: Vec<String>)
        ensures
            final(self).documents@ == old(self).documents@.insert(path@, document),
            final(self).keep_uris@ == with_payloads(
                old(self).keep_uris@.insert(path@),
                texts(uris@),
            ),
            final(self).frontier@ == (FrontierModel {
                queue: old(self).frontier@.queue + tileset_links(texts(uris@)),
                seen: old(self).frontier@.seen,
            }),
    {
        self.documents.insert(path.clone(), document);
        self.keep_uris.insert(path.clone());
        let ghost keep = self.keep_uris@;
        let ghost queue = self.frontier@.queue;
        let mut i: usize = 0;
        assert(queue + tileset_links(texts(uris@).take(0)) =~= queue);
        while i < uris.len()
            invariant
                i <= uris@.len(),
                self.documents@ == old(self).documents@.insert(path@, document),
                self.keep_uris@ == with_payloads(keep, texts(uris@).take(i as int)),
                self.frontier@ == (FrontierModel {
                    queue: queue + tileset_links(texts(uris@).take(i as int)),
                    seen: old(self).frontier@.seen,
                }),
            decreases uris@.len() - i,
        {
            proof {
                let upto = texts(uris@).take(i + 1);
                assert(upto.drop_last() =~= texts(uris@).take(i as int));
                assert(upto.last() == uris@[i as int]@);
            }
            if str_ends_with(uris[i].as_str(), ".json") {
                self.frontier.add_last(uris[i].clone());
                assert(queue + tileset_links(texts(uris@).take(i + 1)) =~= (queue + tileset_links(
                    texts(uris@).take(i as int),
                )).push(uris@[i as int]@));
            } else {
                self.keep_uris.insert(uris[i].clone());
            }
            i += 1;
        }
        assert(texts(uris@).take(i as int) =~= texts(uris@));
    }
}

/// The children that were not handed out before.
pub open spec fn unseen_of(children: Seq<Seq<char>>, seen: Set<Seq<char>>) -> Seq<Seq<char>>
    decreases children.len(),
{
    if children.len() == 0 {
        Seq::empty()
    } else if seen.contains(children.last()) {
        unseen_of(children.drop_last(), seen)
    } else {
        unseen_of(children.drop_last(), seen).push(children.last())
    }
}

/// Take in the document of an I3S node: its children are walked in turn, whether or not it
/// meets the clip polygon and even where it has no bounds; it is kept where it does.
pub fn absorb_node<F: Fn(&NodeBounds) -> bool>(
    frontier: &mut Frontier,
    node_id: &str,
    containing_doc: &str,
    document: &Json,
    meets: &F,
    keep_uris: &mut StringHashSet,
    kept_node_ids: &mut StringHashSet,
)
    requires
        judges_bounds(*meets),
    ensures
        final(frontier)@ == (FrontierModel {
            queue: old(frontier)@.queue + unseen_of(node_children(document@), old(frontier)@.seen),
            seen: old(frontier)@.seen,
        }),
        ({
            let keeps = bounds_of(document@) matches Some(bounds) && bounds_verdict(*meets)(bounds);
            &&& keeps ==> final(keep_uris)@ == old(keep_uris)@.insert(containing_doc@).insert(
                node_document(node_id@),
            ) && final(kept_node_ids)@ == old(kept_node_ids)@.insert(node_id@)
            &&& !keeps ==> final(keep_uris)@ == old(keep_uris)@ && final(kept_node_ids)@ == old(
                kept_node_ids,
            )@
        }),
{
    let children = read_children(document);
    let ghost queue = frontier@.queue;
    let ghost seen = frontier@.seen;
    let mut i: usize = 0;
    assert(queue + unseen_of(children_ids(children@).take(0), seen) =~= queue);
    while i < children.len()
        invariant
            i <= children@.len(),
            frontier@ == (FrontierModel {
                queue: queue + unseen_of(children_ids(children@).take(i as int), seen),
                seen,
            }),
        decreases children@.len() - i,
    {
        proof {
            let upto = children_ids(children@).take(i + 1);
            assert(upto.drop_last() =~= children_ids(children@).take(i as int));
            assert(upto.last() == children@[i as int].id@);
        }
        if !frontier.seen.contains(children[i].id.as_str()) {
            frontier.add_last(children[i].id.clone());
            assert(queue + unseen_of(children_ids(children@).take(i + 1), seen) =~= (queue
                + unseen_of(children_ids(children@).take(i as int), seen)).push(
                children@[i as int].id@,
            ));
        }
        i += 1;
    }
    assert(children_ids(children@).take(i as int) =~= children_ids(children@));
    if let Some(bounds) = parse_node_bounds(document) {
        let hit = meets(&bounds);
        assert(hit == bounds_verdict(*meets)(bounds@));
        if hit {
            keep_uris.insert(containing_doc.to_owned());
            keep_uris.insert(node_document_path(node_id));
            kept_node_ids.insert(node_id.to_owned());
        }
    }
}

/// What holds all along a walk over documents whose links are `links`, while the documents
/// in `pending` are being fetched: only what the root leads to is handed out or queued, and
/// the links of every document that was taken in are handed out or queued.
pub open spec fn walks(
    links: spec_fn(Seq<char>) -> Seq<Seq<char>>,
    root: Seq<char>,
    f: FrontierModel,
    pending: Set<Seq<char>>,
) -> bool {
    &&& f.seen.contains(root) || f.queue.contains(root)
    &&& forall|id: Seq<char>| #[trigger] f.seen.contains(id) ==> reaches(links, root, id)
    &&& forall|id: Seq<char>| #[trigger] f.queue.contains(id) ==> reaches(links, root, id)
    &&& forall|id: Seq<char>| #[trigger] pending.contains(id) ==> f.seen.contains(id)
    &&& forall|id: Seq<char>, child: Seq<char>|
        f.seen.contains(id) && !pending.contains(id) && #[trigger] links(id).contains(child)
            ==> f.seen.contains(child) || f.queue.contains(child)
}

/// It holds at the start.
pub proof fn walks_at_start(links: spec_fn(Seq<char>) -> Seq<Seq<char>>, root: Seq<char>)
    ensures
        walks(
            links,
            root,
            FrontierModel { queue: seq![root], seen: Set::empty() },
            Set::empty(),
        ),
{
    let queue = seq![root];
    assert(queue[0] == root);
    root_is_reached(links, root);
}

/// Handing out a name keeps it, with that name pending. The name was not handed out before.
/// Where no name is left, the queue is empty.
pub proof fn walks_on_hand_out(
    links: spec_fn(Seq<char>) -> Seq<Seq<char>>,
    root: Seq<char>,
    f: FrontierModel,
    pending: Set<Seq<char>>,
)
    requires
        walks(links, root, f, pending),
    ensures
        match handed_out(f.queue, f.seen) {
            (after, Some(name)) => {
                &&& walks(links, root, after, pending.insert(name))
                &&& !f.seen.contains(name)
                &&& after.seen == f.seen.insert(name)
            },
            (after, None) => {
                &&& walks(links, root, after, pending)
                &&& after.queue.len() == 0
                &&& after.seen == f.seen
            },
        },
    decreases f.queue.len(),
{
    if f.queue.len() > 0 {
        let name = f.queue[0];
        let rest = f.queue.drop_first();
        assert(f.queue.contains(name));
        assert forall|id: Seq<char>| f.queue.contains(id) && id != name implies rest.contains(
            id,
        ) by {
            let i = choose|i: int| 0 <= i < f.queue.len() && f.queue[i] == id;
            assert(rest[i - 1] == id);
        }
        assert forall|id: Seq<char>| #[trigger] rest.contains(id) implies f.queue.contains(id) by {
            let i = choose|i: int| 0 <= i < rest.len() && rest[i] == id;
            assert(f.queue[i + 1] == id);
        }
        if f.seen.contains(name) {
            let after = FrontierModel { queue: rest, seen: f.seen };
            assert(walks(links, root, after, pending));
            walks_on_hand_out(links, root, after, pending);
        } else {
            let after = FrontierModel { queue: rest, seen: f.seen.insert(name) };
            assert(walks(links, root, after, pending.insert(name)));
        }
    }
}

/// Taking in a pending document keeps it, with the document no longer pending, where the
/// queue grows by links of the document and every link is handed out or queued after.
pub proof fn walks_on_absorb(
    links: spec_fn(Seq<char>) -> Seq<Seq<char>>,
    root: Seq<char>,
    f: FrontierModel,
    pending: Set<Seq<char>>,
    name: Seq<char>,
    more: Seq<Seq<char>>,
)
    requires
        walks(links, root, f, pending),
        pending.contains(name),
        forall|child: Seq<char>| #[trigger] more.contains(child) ==> links(name).contains(child),
        forall|child: Seq<char>|
            #![trigger links(name).contains(child)]
            links(name).contains(child) ==> f.seen.contains(child) || more.contains(child),
    ensures
        walks(
            links,
            root,
            FrontierModel { queue: f.queue + more, seen: f.seen },
            pending.remove(name),
        ),
{
    let queue = f.queue + more;
    assert forall|id: Seq<char>| f.queue.contains(id) implies #[trigger] queue.contains(id) by {
        let i = choose|i: int| 0 <= i < f.queue.len() && f.queue[i] == id;
        assert(queue[i] == id);
    }
    assert forall|id: Seq<char>| more.contains(id) implies #[trigger] queue.contains(id) by {
        let i = choose|i: int| 0 <= i < more.len() && more[i] == id;
        assert(queue[f.queue.len() + i] == id);
    }
    assert forall|id: Seq<char>| #[trigger] queue.contains(id) implies reaches(
        links,
        root,
        id,
    ) by {
        let i = choose|i: int| 0 <= i < queue.len() && queue[i] == id;
        if i < f.queue.len() {
            assert(f.queue[i] == id);
            assert(f.queue.contains(id));
        } else {
            assert(more[i - f.queue.len()] == id);
            assert(more.contains(id));
            assert(f.seen.contains(name));
            child_is_reached(links, root, name, id);
        }
    }
}

/// Taking in a tileset keeps it, where the links of a tileset are those that lead to nested
/// ones.
pub proof fn walks_on_tileset(
    links: spec_fn(Seq<char>) -> Seq<Seq<char>>,
    root: Seq<char>,
    f: FrontierModel,
    pending: Set<Seq<char>>,
    path: Seq<char>,
    uris: Seq<Seq<char>>,
)
    requires
        walks(links, root, f, pending),
        pending.contains(path),
        links(path) == tileset_links(uris),
    ensures
        walks(
            links,
            root,
            FrontierModel { queue: f.queue + tileset_links(uris), seen: f.seen },
            pending.remove(path),
        ),
{
    walks_on_absorb(links, root, f, pending, path, tileset_links(uris));
}

/// Taking in a node keeps it, where the links of a node are its children.
pub proof fn walks_on_node(
    links: spec_fn(Seq<char>) -> Seq<Seq<char>>,
    root: Seq<char>,
    f: FrontierModel,
    pending: Set<Seq<char>>,
    id: Seq<char>,
    children: Seq<Seq<char>>,
)
    requires
        walks(links, root, f, pending),
        pending.contains(id),
        links(id) == children,
    ensures
        walks(
            links,
            root,
            FrontierModel { queue: f.queue + unseen_of(children, f.seen), seen: f.seen },
            pending.remove(id),
        ),
{
    let more = unseen_of(children, f.seen);
    assert forall|child: Seq<char>| #[trigger] more.contains(child) implies links(id).contains(
        child,
    ) by {
        unseen_are_children(children, f.seen, child);
    }
    assert forall|child: Seq<char>|
        #![trigger links(id).contains(child)]
        links(id).contains(child) implies f.seen.contains(child) || more.contains(child) by {
        unseen_are_children(children, f.seen, child);
    }
    walks_on_absorb(links, root, f, pending, id, more);
}

/// Giving up on a document that could not be fetched keeps it: such a document has no
/// links.
pub proof fn walks_on_failure(
    links: spec_fn(Seq<char>) -> Seq<Seq<char>>,
    root: Seq<char>,
    f: FrontierModel,
    pending: Set<Seq<char>>,
    name: Seq<char>,
)
    requires
        walks(links, root, f, pending),
        pending.contains(name),
        links(name).len() == 0,
    ensures
        walks(links, root, f, pending.remove(name)),
{
    walks_on_absorb(links, root, f, pending, name, Seq::empty());
    assert(f.queue + Seq::<Seq<char>>::empty() =~= f.queue);
}

/// When nothing is queued and nothing pending, exactly what the root leads to was handed
/// out: every nested document was fetched, in whatever order the fetches ended.
pub proof fn walk_is_complete(
    links: spec_fn(Seq<char>) -> Seq<Seq<char>>,
    root: Seq<char>,
    f: FrontierModel,
    id: Seq<char>,
)
    requires
        walks(links, root, f, Set::empty()),
        f.queue.len() == 0,
    ensures
        f.seen.contains(id) <==> reaches(links, root, id),
{
    assert forall|id: Seq<char>, child: Seq<char>|
        f.seen.contains(id) && #[trigger] links(id).contains(child) implies f.seen.contains(
        child,
    ) by {
        assert(f.seen.contains(child) || f.queue.contains(child));
    }
    assert(is_closed(links, root, f.seen));
    if reaches(links, root, id) {
        closed_holds_all(links, root, f.seen, id);
    }
}

/// The tilesets that are queued when a tileset is taken in are those among its links.
pub proof fn tileset_links_are_links(uris: Seq<Seq<char>>, uri: Seq<char>)
    ensures
        tileset_links(uris).contains(uri) <==> uris.contains(uri) && ends_with(uri, ".json"@),
    decreases uris.len(),
{
    if uris.len() > 0 {
        let before = uris.drop_last();
        tileset_links_are_links(before, uri);
        let all = tileset_links(uris);
        if uris.contains(uri) && uri != uris.last() {
            let i = choose|i: int| 0 <= i < uris.len() && uris[i] == uri;
            assert(before[i] == uri);
        }
        if before.contains(uri) {
            let i = choose|i: int| 0 <= i < before.len() && before[i] == uri;
            assert(uris[i] == uri);
        }
        assert(uris[uris.len() - 1] == uris.last());
        let some = tileset_links(before);
        if some.contains(uri) {
            let i = choose|i: int| 0 <= i < some.len() && some[i] == uri;
            assert(all[i] == uri);
        }
        if ends_with(uris.last(), ".json"@) {
            assert(all.last() == uris.last());
            assert(all[all.len() - 1] == uris.last());
            if all.contains(uri) && uri != uris.last() {
                let i = choose|i: int| 0 <= i < all.len() && all[i] == uri;
                assert(some[i] == uri);
            }
        }
    }
}

/// The payloads that are kept when a tileset is taken in are those among its links.
pub proof fn payloads_are_links(keep: Set<Seq<char>>, uris: Seq<Seq<char>>, uri: Seq<char>)
    ensures
        with_payloads(keep, uris).contains(uri) <==> keep.contains(uri) || (uris.contains(uri)
            && !ends_with(uri, ".json"@)),
    decreases uris.len(),
{
    if uris.len() > 0 {
        let before = uris.drop_last();
        payloads_are_links(keep, before, uri);
        if uris.contains(uri) && uri != uris.last() {
            let i = choose|i: int| 0 <= i < uris.len() && uris[i] == uri;
            assert(before[i] == uri);
        }
        if before.contains(uri) {
            let i = choose|i: int| 0 <= i < before.len() && before[i] == uri;
            assert(uris[i] == uri);
        }
        assert(uris[uris.len() - 1] == uris.last());
    }
}

/// `keep` holds the tilesets that were taken in and the payloads that they link to, and
/// nothing else. `done` leads from each tileset that was taken in to its links.
pub open spec fn keeps_exactly(
    keep: Set<Seq<char>>,
    done: Map<Seq<char>, Seq<Seq<char>>>,
) -> bool {
    forall|name: Seq<char>| #[trigger] keep.contains(name) <==> is_wanted(done, name)
}

/// A tileset that was taken in, or a payload that one links to.
pub open spec fn is_wanted(done: Map<Seq<char>, Seq<Seq<char>>>, name: Seq<char>) -> bool {
    done.contains_key(name) || (!ends_with(name, ".json"@) && exists|path: Seq<char>| #[trigger]
        done.contains_key(path) && done[path].contains(name))
}

/// Nothing is kept before anything was taken in.
pub proof fn keeps_exactly_at_start()
    ensures
        keeps_exactly(Set::empty(), Map::empty()),
{
}

/// Taking in a tileset for the first time keeps the keep set exact.
pub proof fn keeps_exactly_on_absorb(
    keep: Set<Seq<char>>,
    done: Map<Seq<char>, Seq<Seq<char>>>,
    path: Seq<char>,
    uris: Seq<Seq<char>>,
)
    requires
        keeps_exactly(keep, done),
        !done.contains_key(path),
    ensures
        keeps_exactly(with_payloads(keep.insert(path), uris), done.insert(path, uris)),
{
    let more = done.insert(path, uris);
    assert forall|name: Seq<char>| #[trigger]
        with_payloads(keep.insert(path), uris).contains(name) <==> is_wanted(more, name) by {
        payloads_are_links(keep.insert(path), uris, name);
        assert(keep.contains(name) <==> is_wanted(done, name));
        if !ends_with(name, ".json"@) {
            if uris.contains(name) {
                assert(more.contains_key(path) && more[path].contains(name));
            }
            if is_wanted(done, name) && !done.contains_key(name) {
                let from = choose|from: Seq<char>| #[trigger]
                    done.contains_key(from) && done[from].contains(name);
                assert(more.contains_key(from) && more[from].contains(name));
            }
            if is_wanted(more, name) && !more.contains_key(name) {
                let from = choose|from: Seq<char>| #[trigger]
                    more.contains_key(from) && more[from].contains(name);
                if from != path {
                    assert(done.contains_key(from) && done[from].contains(name));
                }
            }
        }
    }
}

/// The children that are queued when a node is taken in are those that were not handed out.
pub proof fn unseen_are_children(children: Seq<Seq<char>>, seen: Set<Seq<char>>, id: Seq<char>)
    ensures
        unseen_of(children, seen).contains(id) <==> children.contains(id) && !seen.contains(id),
    decreases children.len(),
{
    if children.len() > 0 {
        let before = children.drop_last();
        unseen_are_children(before, seen, id);
        let all = unseen_of(children, seen);
        let some = unseen_of(before, seen);
        if children.contains(id) && id != children.last() {
            let i = choose|i: int| 0 <= i < children.len() && children[i] == id;
            assert(before[i] == id);
        }
        if before.contains(id) {
            let i = choose|i: int| 0 <= i < before.len() && before[i] == id;
            assert(children[i] == id);
        }
        assert(children[children.len() - 1] == children.last());
        if some.contains(id) {
            let i = choose|i: int| 0 <= i < some.len() && some[i] == id;
            assert(all[i] == id);
        }
        if !seen.contains(children.last()) {
            assert(all[all.len() - 1] == children.last());
            if all.contains(id) && id != children.last() {
                let i = choose|i: int| 0 <= i < all.len() && all[i] == id;
                assert(some[i] == id);
            }
        }
    }
}

/// The first name in the queue that was not handed out before is handed out next: those
/// before it are dropped, those behind it stay in their order, and it counts as handed out.
pub proof fn first_new_name_is_handed_out(queue: Seq<Seq<char>>, seen: Set<Seq<char>>, i: int)
    requires
        0 <= i < queue.len(),
        !seen.contains(queue[i]),
        forall|j: int| 0 <= j < i ==> seen.contains(#[trigger] queue[j]),
    ensures
        handed_out(queue, seen).1 == Some(queue[i]),
        handed_out(queue, seen).0.queue == queue.skip(i + 1),
        handed_out(queue, seen).0.seen == seen.insert(queue[i]),
    decreases i,
{
    if i > 0 {
        assert(seen.contains(queue[0]));
        let rest = queue.drop_first();
        assert forall|j: int| 0 <= j < i - 1 implies seen.contains(#[trigger] rest[j]) by {
            assert(rest[j] == queue[j + 1]);
        }
        first_new_name_is_handed_out(rest, seen, i - 1);
        assert(rest.skip(i) =~= queue.skip(i + 1));
    } else {
        assert(queue.drop_first() =~= queue.skip(1));
    }
}

/// Where every name in the queue was handed out before, none is left.
pub proof fn no_name_is_handed_out_twice(queue: Seq<Seq<char>>, seen: Set<Seq<char>>)
    requires
        forall|j: int| 0 <= j < queue.len() ==> seen.contains(#[trigger] queue[j]),
    ensures
        handed_out(queue, seen).1 is None,
        handed_out(queue, seen).0.queue.len() == 0,
        handed_out(queue, seen).0.seen == seen,
    decreases queue.len(),
{
    if queue.len() > 0 {
        assert(seen.contains(queue[0]));
        let rest = queue.drop_first();
        assert forall|j: int| 0 <= j < rest.len() implies seen.contains(#[trigger] rest[j]) by {
            assert(rest[j] == queue[j + 1]);
        }
        no_name_is_handed_out_twice(rest, seen);
    }
}

/// Links are gone through one after the other.
pub proof fn links_are_queued_in_turn(first: Seq<Seq<char>>, second: Seq<Seq<char>>)
    ensures
        tileset_links(first + second) == tileset_links(first) + tileset_links(second),
    decreases second.len(),
{
    let all = first + second;
    if second.len() == 0 {
        assert(all =~= first);
        assert(tileset_links(first) + tileset_links(second) =~= tileset_links(first));
    } else {
        links_are_queued_in_turn(first, second.drop_last());
        assert(all.drop_last() =~= first + second.drop_last());
        assert(all.last() == second.last());
        assert(tileset_links(all) =~= tileset_links(first) + tileset_links(second));
    }
}

/// A link that ends with `.json` leads to a tileset; any other leads to a payload, which is
/// kept.
pub proof fn link_leads_to_tileset_or_payload(keep: Set<Seq<char>>, uri: Seq<char>)
    ensures
        ends_with(uri, ".json"@) ==> tileset_links(seq![uri]) == seq![uri] && with_payloads(
            keep,
            seq![uri],
        ) == keep,
        !ends_with(uri, ".json"@) ==> tileset_links(seq![uri]).len() == 0 && with_payloads(
            keep,
            seq![uri],
        ) == keep.insert(uri),
{
    let one = seq![uri];
    assert(one.drop_last() =~= Seq::<Seq<char>>::empty());
    assert(tileset_links(one.drop_last()) =~= Seq::empty());
    assert(with_payloads(keep, one.drop_last()) == keep);
    assert(one.last() == uri);
    if ends_with(uri, ".json"@) {
        assert(tileset_links(one) =~= one);
    }
}

/// Children are queued one after the other.
pub proof fn children_are_queued_in_turn(
    first: Seq<Seq<char>>,
    second: Seq<Seq<char>>,
    seen: Set<Seq<char>>,
)
    ensures
        unseen_of(first + second, seen) == unseen_of(first, seen) + unseen_of(second, seen),
    decreases second.len(),
{
    let all = first + second;
    if second.len() == 0 {
        assert(all =~= first);
        assert(unseen_of(first, seen) + unseen_of(second, seen) =~= unseen_of(first, seen));
    } else {
        children_are_queued_in_turn(first, second.drop_last(), seen);
        assert(all.drop_last() =~= first + second.drop_last());
        assert(all.last() == second.last());
        assert(unseen_of(all, seen) =~= unseen_of(first, seen) + unseen_of(second, seen));
    }
}

/// A child is queued unless it was handed out before.
pub proof fn child_is_queued_unless_seen(child: Seq<char>, seen: Set<Seq<char>>)
    ensures
        seen.contains(child) ==> unseen_of(seq![child], seen).len() == 0,
        !seen.contains(child) ==> unseen_of(seq![child], seen) == seq![child],
{
    let one = seq![child];
    assert(one.drop_last() =~= Seq::<Seq<char>>::empty());
    assert(unseen_of(one.drop_last(), seen) =~= Seq::empty());
    assert(one.last() == child);
    if !seen.contains(child) {
        assert(unseen_of(one, seen) =~= one);
    }
}

/// A name is added behind all others and is not handed out by that.
pub proof fn name_is_added_last(frontier: &mut Frontier, name: String)
    requires
        call_ensures(Frontier::add_last, (frontier, name), ()),
    ensures
        final(frontier)@.queue == old(frontier)@.queue + seq![name@],
        final(frontier)@.seen == old(frontier)@.seen,
{
    assert(old(frontier)@.queue.push(name@) =~= old(frontier)@.queue + seq![name@]);
}

/// A walk over tilesets starts at `tileset.json`, with nothing kept.
pub proof fn tileset_walk_starts_at_the_root_document(walk: TilesetWalk)
    requires
        call_ensures(TilesetWalk::new, (), walk),
    ensures
        handed_out(walk.frontier@.queue, walk.frontier@.seen).1 == Some("tileset.json"@),
        walk.keep_uris@ == Set::<Seq<char>>::empty(),
        walk.documents@.dom() == Set::<Seq<char>>::empty(),
{
    assert(walk.frontier@.queue[0] == "tileset.json"@);
    assert(walk.documents@.dom() =~= Set::<Seq<char>>::empty());
}

/// Taking in a tileset keeps it and the payloads that it links to, holds its document, and
/// queues the tilesets that it links to behind all others.
pub proof fn tileset_that_is_taken_in_stays(
    walk: &mut TilesetWalk,
    path: String,
    document: Json,
    uris: Vec<String>,
    uri: Seq<char>,
)
    requires
        call_ensures(TilesetWalk::absorb, (walk, path, document, uris), ()),
    ensures
        final(walk).documents@.dom().contains(path@),
        final(walk).documents@[path@] == document,
        final(walk).keep_uris@.contains(uri) <==> old(walk).keep_uris@.contains(uri) || uri == path@
            || (texts(uris@).contains(uri) && !ends_with(uri, ".json"@)),
        final(walk).frontier@.queue == old(walk).frontier@.queue + tileset_links(texts(uris@)),
        final(walk).frontier@.seen == old(walk).frontier@.seen,
{
    payloads_are_links(old(walk).keep_uris@.insert(path@), texts(uris@), uri);
}

/// A node is kept with its id, its own document and the one that it was read from where its
/// bounds meet the clip polygon; otherwise nothing is added. Its children are queued either
/// way.
pub proof fn node_that_is_taken_in_is_kept_by_its_bounds<F: Fn(&NodeBounds) -> bool>(
    frontier: &mut Frontier,
    node_id: &str,
    containing_doc: &str,
    document: &Json,
    meets: &F,
    keep_uris: &mut StringHashSet,
    kept_node_ids: &mut StringHashSet,
    bounds: &NodeBounds,
    answer: bool,
)
    requires
        judges_bounds(*meets),
        call_ensures(
            absorb_node::<F>,
            (frontier, node_id, containing_doc, document, meets, keep_uris, kept_node_ids),
            (),
        ),
        call_ensures(*meets, (bounds,), answer),
    ensures
        final(frontier)@.queue == old(frontier)@.queue + unseen_of(
            node_children(document@),
            old(frontier)@.seen,
        ),
        final(frontier)@.seen == old(frontier)@.seen,
        bounds_of(document@) is None || (bounds_of(document@) == Some(bounds@) && !answer) ==> {
            &&& final(keep_uris)@ == old(keep_uris)@
            &&& final(kept_node_ids)@ == old(kept_node_ids)@
        },
        bounds_of(document@) == Some(bounds@) && answer ==> {
            &&& final(keep_uris)@.contains(containing_doc@)
            &&& final(keep_uris)@.contains(node_document(node_id@))
            &&& final(kept_node_ids)@ == old(kept_node_ids)@.insert(node_id@)
        },
{
    bounds_verdict_is_the_answer(*meets, bounds, answer);
}

} // verus!
