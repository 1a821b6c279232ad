//! The nodes of an I3S scene layer, by id.
use vstd::hash_map::StringHashMap;
use vstd::prelude::*;
use vstd::string::*;

use crate::i3s::{BoundsModel, NodeBounds};

verus! {

/// A reference from a node to one of its children.
#[derive(Debug)]
pub struct ChildRef {
    pub id: String,
}

/// A node of an I3S scene layer.
#[derive(Debug)]
pub struct I3SNode {
    pub id: String,
    /// Canonical per-node document path within the archive (without `.gz`),
    /// e.g. `nodes/3/3dNodeIndexDocument.json`.
    pub doc_filename: String,
    /// The archive file that this node was read from. For paginated layouts this is a
    /// node page; `doc_filename` may or may not exist as an entry of its own.
    pub containing_doc: String,
    /// The bounds, as the node declares them, where it declares usable ones.
    pub bounds: Option<NodeBounds>,
    pub children: Vec<ChildRef>,
}

/// What an `I3SNode` says.
pub struct NodeModel {
    pub id: Seq<char>,
    pub doc_filename: Seq<char>,
    pub containing_doc: Seq<char>,
    pub bounds: Option<BoundsModel>,
    pub children: Seq<Seq<char>>,
}

/// The ids that the references name, in order.
pub open spec fn children_ids(children: Seq<ChildRef>) -> Seq<Seq<char>> {
    children.map_values(|c: ChildRef| c.id@)
}

/// What the bounds of a node say.
pub open spec fn bounds_model(bounds: Option<NodeBounds>) -> Option<BoundsModel> {
    match bounds {
        Some(bounds) => Some(bounds@),
        None => None,
    }
}

impl View for I3SNode {
    type V = NodeModel;

    open spec fn view(&self) -> NodeModel {
        NodeModel {
            id: self.id@,
            doc_filename: self.doc_filename@,
            containing_doc: self.containing_doc@,
            bounds: bounds_model(self.bounds),
            children: children_ids(self.children@),
        }
    }
}

/// A node with the key that it is found by.
#[derive(Debug)]
pub struct NodeEntry {
    pub key: String,
    pub node: I3SNode,
}

/// Nodes by key.
pub struct NodeTable {
    pub(crate) entries: Vec<NodeEntry>,
    pub(crate) index: StringHashMap<usize>,
}

impl View for NodeTable {
    type V = Map<Seq<char>, NodeModel>;

    closed spec fn view(&self) -> Map<Seq<char>, NodeModel> {
        Map::new(
            |key: Seq<char>| self.index@.contains_key(key),
            |key: Seq<char>| self.entries@[self.index@[key] as int].node@,
        )
    }
}

impl NodeTable {
    /// Every key leads to an entry that bears it.
    pub closed spec fn wf(&self) -> bool {
        forall|key: Seq<char>| #[trigger]
            self.index@.contains_key(key) ==> self.index@[key] < self.entries@.len()
                && self.entries@[self.index@[key] as int].key@ == key
    }

    /// How many entries have a key that is not in `seen`.
    pub(crate) closed spec fn unseen(&self, seen: Set<Seq<char>>) -> nat {
        count_unseen(self.entries@, seen)
    }

    /// A table without nodes.
    pub fn new() -> (table: NodeTable)
        ensures
            table.wf(),
            table@ == Map::<Seq<char>, NodeModel>::empty(),
    {
        let table = NodeTable { entries: Vec::new(), index: StringHashMap::new() };
        assert(table@ =~= Map::<Seq<char>, NodeModel>::empty());
        table
    }

    /// Add a node under a key, in place of the one that was there.
    pub fn insert(&mut self, key: String, node: I3SNode)
        requires
            old(self).wf(),
        ensures
            final(self).wf(),
            final(self)@ == old(self)@.insert(key@, node@),
    {
        let at: Option<usize> = match self.index.get(key.as_str()) {
            Some(i) => Some(*i),
            None => None,
        };
        match at {
            Some(i) => {
                self.entries[i].node = node;
                assert(self@ =~= old(self)@.insert(key@, node@));
            },
            None => {
                let i: usize = self.entries.len();
                self.index.insert(key.clone(), i);
                self.entries.push(NodeEntry { key, node });
                assert(self@ =~= old(self)@.insert(key@, node@));
            },
        }
    }

    /// The node under a key.
    pub fn get(&self, key: &str) -> (r: Option<&I3SNode>)
        requires
            self.wf(),
        ensures
            match r {
                Some(node) => self@.contains_key(key@) && node@ == self@[key@],
                None => !self@.contains_key(key@),
            },
    {
        match self.index.get(key) {
            Some(i) => Some(&self.entries[*i].node),
            None => None,
        }
    }

    /// Whether there is a node under a key.
    pub fn contains_key(&self, key: &str) -> (r: bool)
        ensures
            r == self@.contains_key(key@),
    {
        self.index.contains_key(key)
    }

    /// How many nodes there are.
    pub fn len(&self) -> (n: usize)
        ensures
            n == self@.len(),
    {
        assert(self@.dom() =~= self.index@.dom());
        self.index.len()
    }

    /// Seeing a key of the table leaves fewer unseen.
    pub(crate) proof fn lemma_unseen(&self, seen: Set<Seq<char>>, key: Seq<char>)
        requires
            self.wf(),
        ensures
            self.unseen(seen.insert(key)) <= self.unseen(seen),
            self@.contains_key(key) && !seen.contains(key) ==> self.unseen(seen.insert(key))
                < self.unseen(seen),
    {
        lemma_count_unseen(self.entries@, seen, key);
        if self@.contains_key(key) {
            let i = self.index@[key] as int;
            assert(self.entries@[i].key@ == key);
        }
    }
}

spec fn count_unseen(entries: Seq<NodeEntry>, seen: Set<Seq<char>>) -> nat
    decreases entries.len(),
{
    if entries.len() == 0 {
        0
    } else {
        count_unseen(entries.drop_last(), seen) + if seen.contains(entries.last().key@) {
            0nat
        } else {
            1nat
        }
    }
}

proof fn lemma_count_unseen(entries: Seq<NodeEntry>, seen: Set<Seq<char>>, key: Seq<char>)
    ensures
        count_unseen(entries, seen.insert(key)) <= count_unseen(entries, seen),
        !seen.contains(key) && (exists|i: int|
            0 <= i < entries.len() && (#[trigger] entries[i]).key@ == key) ==> count_unseen(
            entries,
            seen.insert(key),
        ) < count_unseen(entries, seen),
    decreases entries.len(),
{
    if entries.len() > 0 {
        lemma_count_unseen(entries.drop_last(), seen, key);
        if !seen.contains(key) && exists|i: int|
            0 <= i < entries.len() && (#[trigger] entries[i]).key@ == key {
            let i = choose|i: int| 0 <= i < entries.len() && (#[trigger] entries[i]).key@ == key;
            if i < entries.len() - 1 {
                assert(entries.drop_last()[i].key@ == key);
            }
        }
    }
}

/// A node says what it holds: its id, its documents, its bounds where it has some, and the
/// ids of its children in their order.
pub proof fn node_says_what_it_holds(node: I3SNode, i: int)
    requires
        0 <= i < node.children@.len(),
    ensures
        node@.id == node.id@,
        node@.doc_filename == node.doc_filename@,
        node@.containing_doc == node.containing_doc@,
        node@.bounds == (match node.bounds {
            Some(bounds) => Some(bounds@),
            None => None,
        }),
        node@.children.len() == node.children@.len(),
        node@.children[i] == node.children@[i].id@,
{
}

} // verus!
