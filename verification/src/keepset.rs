//! The files of an I3S archive that stay with the nodes that are kept.
use vstd::hash_set::StringHashSet;
use vstd::prelude::*;
use vstd::string::*;

use crate::i3s::node_document;
use crate::text::{
    chars_of, contains_text, find_from, find_text, has_prefix, has_text, lemma_find_from,
    occurs_at, part, prefix_is_what_comes_first, same_text, starts_with, string_of,
};

verus! {

/// The position of the first slash at or after `from`, or the end.
pub open spec fn segment_end(name: Seq<char>, from: int) -> int
    decreases name.len() - from,
{
    if from >= name.len() || name[from] == '/' {
        from
    } else {
        segment_end(name, from + 1)
    }
}

/// The directory name that starts at `from`, where it is not empty.
pub open spec fn segment_at(name: Seq<char>, from: int) -> Option<Seq<char>> {
    if segment_end(name, from) > from {
        Some(name.subrange(from, segment_end(name, from)))
    } else {
        None
    }
}

/// The node id in a path of the shape `[prefix/]nodes/{id}/...`.
pub open spec fn node_in_path(name: Seq<char>) -> Option<Seq<char>> {
    if starts_with(name, "nodes/"@) {
        segment_at(name, "nodes/"@.len() as int)
    } else {
        match find_from(name, "/nodes/"@, 0) {
            Some(i) => segment_at(name, i + "/nodes/"@.len()),
            None => None,
        }
    }
}

/// `name` lies in the directory `dir/` at the root, or in one of that name further down.
pub open spec fn lies_in(name: Seq<char>, at_root: Seq<char>, below: Seq<char>) -> bool {
    starts_with(name, at_root) || contains_text(name, below)
}

/// The file stays: it belongs to a kept node, or to the node pages, or to the statistics,
/// or is the metadata of the archive. Node pages and statistics are densely interlinked and
/// referred to by index, so they stay whatever is kept.
pub open spec fn stays_with(name: Seq<char>, kept: Set<Seq<char>>) -> bool {
    ||| node_in_path(name) matches Some(id) && kept.contains(id)
    ||| lies_in(name, "nodepages/"@, "/nodepages/"@)
    ||| lies_in(name, "statistics/"@, "/statistics/"@)
    ||| name == "metadata.json"@
}

/// The keep set with every name that stays added, and how many were new.
pub open spec fn expanded(
    names: Seq<Seq<char>>,
    kept: Set<Seq<char>>,
    keep: Set<Seq<char>>,
) -> (Set<Seq<char>>, nat)
    decreases names.len(),
{
    if names.len() == 0 {
        (keep, 0)
    } else {
        let (set, added) = expanded(names.drop_last(), kept, keep);
        if stays_with(names.last(), kept) && !set.contains(names.last()) {
            (set.insert(names.last()), added + 1)
        } else {
            (set, added)
        }
    }
}

/// The texts of the strings, in order.
pub open spec fn str_texts(names: Seq<&str>) -> Seq<Seq<char>> {
    names.map_values(|s: &str| s@)
}

fn find_segment(name: &Vec<char>, from: usize) -> (r: Option<String>)
    requires
        from <= name@.len(),
    ensures
        match r {
            Some(s) => segment_at(name@, from as int) == Some(s@),
            None => segment_at(name@, from as int) is None,
        },
{
    let mut end: usize = from;
    while end < name.len() && name[end] != '/'
        invariant
            from <= end <= name@.len(),
            segment_end(name@, from as int) == segment_end(name@, end as int),
        decreases name@.len() - end,
    {
        end += 1;
    }
    if end > from {
        let segment = part(name.as_slice(), from, end);
        Some(string_of(segment.as_slice()))
    } else {
        None
    }
}

/// The node id in a path of the shape `[prefix/]nodes/{id}/...`.
fn node_id_of(name: &Vec<char>) -> (r: Option<String>)
    ensures
        match r {
            Some(id) => node_in_path(name@) == Some(id@),
            None => node_in_path(name@) is None,
        },
{
    proof {
        reveal_strlit("nodes/");
        reveal_strlit("/nodes/");
        lemma_find_from(name@, "/nodes/"@, 0);
    }
    if has_prefix(name.as_slice(), "nodes/") {
        return find_segment(name, 6);
    }
    let n: usize = name.len();
    match find_text(name.as_slice(), "/nodes/") {
        Some(i) => {
            assert(i + 7 <= n);
            find_segment(name, i + 7)
        },
        None => None,
    }
}

/// Whether a file stays with the kept nodes.
pub fn is_kept_file(name: &str, kept_node_ids: &StringHashSet) -> (r: bool)
    ensures
        r == stays_with(name@, kept_node_ids@),
{
    let chars = chars_of(name);
    let of_kept_node = match node_id_of(&chars) {
        Some(id) => kept_node_ids.contains(id.as_str()),
        None => false,
    };
    let chars = chars.as_slice();
    of_kept_node || has_prefix(chars, "nodepages/") || has_text(chars, "/nodepages/") || has_prefix(
        chars,
        "statistics/",
    ) || has_text(chars, "/statistics/") || same_text(name, "metadata.json")
}

/// Add every archive entry that stays with the kept nodes to the keep set, and tell how
/// many of the names are new. Node documents only carry references; the geometries,
/// textures and attributes lie under `nodes/{id}/` and have to stay with their node.
///
/// `entry_names` are the names without any `.gz` suffix.
pub fn expand_i3s_keep_set(
    entry_names: &[&str],
    kept_node_ids: &StringHashSet,
    keep_uris: &mut StringHashSet,
) -> (added: usize)
    ensures
        final(keep_uris)@ == expanded(
            str_texts(entry_names@),
            kept_node_ids@,
            old(keep_uris)@,
        ).0,
        added == expanded(str_texts(entry_names@), kept_node_ids@, old(keep_uris)@).1,
{
    let mut added: usize = 0;
    let mut i: usize = 0;
    while i < entry_names.len()
        invariant
            i <= entry_names@.len(),
            added <= i,
            keep_uris@ == expanded(
                str_texts(entry_names@).take(i as int),
                kept_node_ids@,
                old(keep_uris)@,
            ).0,
            added == expanded(
                str_texts(entry_names@).take(i as int),
                kept_node_ids@,
                old(keep_uris)@,
            ).1,
        decreases entry_names@.len() - i,
    {
        proof {
            let upto = str_texts(entry_names@).take(i + 1);
            assert(upto.drop_last() =~= str_texts(entry_names@).take(i as int));
            assert(upto.last() == entry_names@[i as int]@);
        }
        let ghost before = keep_uris@;
        if is_kept_file(entry_names[i], kept_node_ids) {
            if keep_uris.insert(entry_names[i].to_owned()) {
                added += 1;
            } else {
                assert(keep_uris@ =~= before);
            }
        }
        i += 1;
    }
    assert(str_texts(entry_names@).take(i as int) =~= str_texts(entry_names@));
    added
}

/// What the expansion keeps: what was kept before, and the names that stay. Nothing else is
/// added, and nothing is lost.
pub proof fn expansion_keeps_what_stays(
    names: Seq<Seq<char>>,
    kept: Set<Seq<char>>,
    keep: Set<Seq<char>>,
    name: Seq<char>,
)
    ensures
        expanded(names, kept, keep).0.contains(name) <==> keep.contains(name) || (names.contains(
            name,
        ) && stays_with(name, kept)),
    decreases names.len(),
{
    if names.len() > 0 {
        expansion_keeps_what_stays(names.drop_last(), kept, keep, name);
        if names.contains(name) && name != names.last() {
            let i = choose|i: int| 0 <= i < names.len() && names[i] == name;
            assert(names.drop_last()[i] == name);
        }
        if names.drop_last().contains(name) {
            let i = choose|i: int| 0 <= i < names.drop_last().len() && names.drop_last()[i] == name;
            assert(names[i] == name);
        }
        assert(names[names.len() - 1] == names.last());
    }
}

/// Expanding a second time adds nothing, whatever the order of the names and however often
/// each is among them.
pub proof fn expansion_is_stable(
    names: Seq<Seq<char>>,
    again: Seq<Seq<char>>,
    kept: Set<Seq<char>>,
    keep: Set<Seq<char>>,
)
    requires
        forall|i: int| 0 <= i < again.len() ==> names.contains(#[trigger] again[i]),
    ensures
        expanded(again, kept, expanded(names, kept, keep).0) == (
            expanded(names, kept, keep).0,
            0nat,
        ),
{
    let full = expanded(names, kept, keep).0;
    lemma_nothing_new(names, kept, keep, again, full);
}

/// What the expansion keeps does not depend on the order of the names, nor how many of them
/// are new.
pub proof fn expansion_ignores_order(
    names: Seq<Seq<char>>,
    others: Seq<Seq<char>>,
    kept: Set<Seq<char>>,
    keep: Set<Seq<char>>,
)
    requires
        forall|name: Seq<char>| #[trigger] names.contains(name) <==> others.contains(name),
    ensures
        expanded(names, kept, keep) == expanded(others, kept, keep),
{
    assert forall|name: Seq<char>| #[trigger]
        expanded(names, kept, keep).0.contains(name) <==> expanded(others, kept, keep).0.contains(
            name,
        ) by {
        expansion_keeps_what_stays(names, kept, keep, name);
        expansion_keeps_what_stays(others, kept, keep, name);
        assert(names.contains(name) <==> others.contains(name));
    }
    assert(expanded(names, kept, keep).0 =~= expanded(others, kept, keep).0);
    lemma_added_is_new(names, kept, keep);
    lemma_added_is_new(others, kept, keep);
}

/// As many names are new as the keep set has gained.
proof fn lemma_added_is_new(names: Seq<Seq<char>>, kept: Set<Seq<char>>, keep: Set<Seq<char>>)
    ensures
        expanded(names, kept, keep).0.difference(keep).finite(),
        expanded(names, kept, keep).1 == expanded(names, kept, keep).0.difference(keep).len(),
        keep.subset_of(expanded(names, kept, keep).0),
    decreases names.len(),
{
    if names.len() == 0 {
        assert(keep.difference(keep) =~= Set::empty());
    } else {
        lemma_added_is_new(names.drop_last(), kept, keep);
        let set = expanded(names.drop_last(), kept, keep).0;
        let last = names.last();
        if stays_with(last, kept) && !set.contains(last) {
            assert(set.insert(last).difference(keep) =~= set.difference(keep).insert(last));
        }
    }
}

proof fn lemma_nothing_new(
    names: Seq<Seq<char>>,
    kept: Set<Seq<char>>,
    keep: Set<Seq<char>>,
    some: Seq<Seq<char>>,
    full: Set<Seq<char>>,
)
    requires
        full == expanded(names, kept, keep).0,
        forall|i: int| 0 <= i < some.len() ==> names.contains(#[trigger] some[i]),
    ensures
        expanded(some, kept, full) == (full, 0nat),
    decreases some.len(),
{
    if some.len() > 0 {
        assert forall|i: int| 0 <= i < some.drop_last().len() implies names.contains(
            #[trigger] some.drop_last()[i],
        ) by {
            assert(some.drop_last()[i] == some[i]);
        }
        lemma_nothing_new(names, kept, keep, some.drop_last(), full);
        assert(names.contains(some[some.len() - 1]));
        expansion_keeps_what_stays(names, kept, keep, some.last());
    }
}

/// A directory name reaches up to the next slash.
proof fn lemma_segment(name: Seq<char>, before: Seq<char>, id: Seq<char>, behind: Seq<char>)
    requires
        name == before + id + behind,
        !id.contains('/'),
        behind.len() == 0 || behind[0] == '/',
    ensures
        segment_end(name, before.len() as int) == before.len() + id.len(),
        id.len() > 0 ==> segment_at(name, before.len() as int) == Some(id),
        id.len() == 0 ==> segment_at(name, before.len() as int) is None,
    decreases id.len(),
{
    if id.len() == 0 {
        if behind.len() > 0 {
            assert(name[before.len() as int] == behind[0]);
        }
    } else {
        let longer = before.push(id[0]);
        let rest = id.drop_first();
        assert(name[before.len() as int] == id[0]);
        assert(id.contains(id[0]));
        assert(name =~= longer + rest + behind);
        if rest.contains('/') {
            let k = choose|k: int| 0 <= k < rest.len() && rest[k] == '/';
            assert(id[k + 1] == '/');
        }
        lemma_segment(name, longer, rest, behind);
        assert(name.subrange(before.len() as int, (before.len() + id.len()) as int) =~= id);
    }
}

/// A path below `nodes/` belongs to the node whose id is the next directory name; a path that
/// names no directory there belongs to none.
pub proof fn node_is_the_directory_below_nodes(id: Seq<char>, behind: Seq<char>)
    requires
        !id.contains('/'),
        behind.len() == 0 || behind[0] == '/',
    ensures
        id.len() > 0 ==> node_in_path("nodes/"@ + id + behind) == Some(id),
        id.len() == 0 ==> node_in_path("nodes/"@ + id + behind) is None,
{
    let name = "nodes/"@ + id + behind;
    prefix_is_what_comes_first(name, "nodes/"@, id + behind);
    assert("nodes/"@ + (id + behind) =~= name);
    lemma_segment(name, "nodes/"@, id, behind);
}

/// Where a path does not begin with `nodes/`, the first `/nodes/` in it counts.
pub proof fn node_is_the_directory_below_the_first_nodes(
    before: Seq<char>,
    id: Seq<char>,
    behind: Seq<char>,
)
    requires
        !id.contains('/'),
        behind.len() == 0 || behind[0] == '/',
        !starts_with(before + "/nodes/"@ + id + behind, "nodes/"@),
        forall|j: int|
            0 <= j < before.len() ==> !#[trigger] occurs_at(
                before + "/nodes/"@ + id + behind,
                "/nodes/"@,
                j,
            ),
    ensures
        id.len() > 0 ==> node_in_path(before + "/nodes/"@ + id + behind) == Some(id),
        id.len() == 0 ==> node_in_path(before + "/nodes/"@ + id + behind) is None,
{
    let name = before + "/nodes/"@ + id + behind;
    let mark = "/nodes/"@;
    let at = before.len() as int;
    assert(name.subrange(at, at + mark.len()) =~= mark);
    assert(occurs_at(name, mark, at));
    lemma_find_from(name, mark, 0);
    let found = find_from(name, mark, 0);
    assert(found is Some);
    let i = found->0;
    if i < at {
        assert(!occurs_at(name, mark, i));
    }
    assert(i == at);
    lemma_segment(name, before + mark, id, behind);
}

/// A path without a `nodes` directory belongs to no node.
pub proof fn path_outside_nodes_has_no_node(name: Seq<char>)
    requires
        !starts_with(name, "nodes/"@),
        !contains_text(name, "/nodes/"@),
    ensures
        node_in_path(name) is None,
{
    lemma_find_from(name, "/nodes/"@, 0);
    if let Some(i) = find_from(name, "/nodes/"@, 0) {
        assert(occurs_at(name, "/nodes/"@, i));
    }
}

/// The document of a node belongs to the node.
pub proof fn document_belongs_to_its_node(id: Seq<char>)
    requires
        id.len() > 0,
        !id.contains('/'),
    ensures
        node_in_path(node_document(id)) == Some(id),
{
    reveal_strlit("/3dNodeIndexDocument.json");
    node_is_the_directory_below_nodes(id, "/3dNodeIndexDocument.json"@);
}

/// Every file of a node stays where the node is kept. A file that belongs to no kept node
/// stays only as part of the node pages or the statistics, or as the metadata.
pub proof fn files_stay_for_their_reasons(name: Seq<char>, kept: Set<Seq<char>>)
    ensures
        node_in_path(name) matches Some(id) ==> kept.contains(id) ==> stays_with(name, kept),
        starts_with(name, "nodepages/"@) ==> stays_with(name, kept),
        contains_text(name, "/nodepages/"@) ==> stays_with(name, kept),
        starts_with(name, "statistics/"@) ==> stays_with(name, kept),
        contains_text(name, "/statistics/"@) ==> stays_with(name, kept),
        name == "metadata.json"@ ==> stays_with(name, kept),
        stays_with(name, kept) ==> {
            ||| node_in_path(name) matches Some(id) && kept.contains(id)
            ||| starts_with(name, "nodepages/"@)
            ||| contains_text(name, "/nodepages/"@)
            ||| starts_with(name, "statistics/"@)
            ||| contains_text(name, "/statistics/"@)
            ||| name == "metadata.json"@
        },
{
}

/// As many names are counted as the keep set gains.
pub proof fn expansion_counts_what_is_new(
    names: Seq<Seq<char>>,
    kept: Set<Seq<char>>,
    keep: Set<Seq<char>>,
)
    ensures
        expanded(names, kept, keep).1 == expanded(names, kept, keep).0.difference(keep).len(),
{
    lemma_added_is_new(names, kept, keep);
}

} // verus!
