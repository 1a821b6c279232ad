//! References between the documents of an archive: relative paths resolved against the
//! document that holds them, never leaving the archive root.
//!
//! Paths follow the Unix rules: `/` separates, empty and `.` components count for
//! nothing, and a leading `/` makes a path absolute.
use vstd::prelude::*;

use crate::text::{chars_of, slashed, slashed_chars, starts_with, string_of};

verus! {

/// The pieces of `s` between slashes, the empty ones included.
pub open spec fn pieces(s: Seq<char>) -> Seq<Seq<char>>
    decreases s.len(),
{
    if s.len() == 0 {
        seq![Seq::empty()]
    } else if s.last() == '/' {
        pieces(s.drop_last()).push(Seq::empty())
    } else {
        let before = pieces(s.drop_last());
        before.drop_last().push(before.last().push(s.last()))
    }
}

/// A piece that names something: neither empty nor `.`.
pub open spec fn is_component(piece: Seq<char>) -> bool {
    piece.len() > 0 && piece != seq!['.']
}

/// The pieces that count, in order.
pub open spec fn kept_pieces(all: Seq<Seq<char>>) -> Seq<Seq<char>>
    decreases all.len(),
{
    if all.len() == 0 {
        Seq::empty()
    } else if is_component(all.last()) {
        kept_pieces(all.drop_last()).push(all.last())
    } else {
        kept_pieces(all.drop_last())
    }
}

/// The components of a path, `..` among them.
pub open spec fn components(path: Seq<char>) -> Seq<Seq<char>> {
    kept_pieces(pieces(path))
}

/// The component that leads to the parent directory.
pub open spec fn is_parent(component: Seq<char>) -> bool {
    component == seq!['.', '.']
}

/// Where a walk along the components ends, starting at the root: `..` goes one step
/// back. There is no such place once a step back would leave the root.
pub open spec fn walked(components: Seq<Seq<char>>) -> Option<Seq<Seq<char>>>
    decreases components.len(),
{
    if components.len() == 0 {
        Some(Seq::empty())
    } else {
        match walked(components.drop_last()) {
            None => None,
            Some(place) => if is_parent(components.last()) {
                if place.len() == 0 {
                    None
                } else {
                    Some(place.drop_last())
                }
            } else {
                Some(place.push(components.last()))
            },
        }
    }
}

/// The parts with a slash between each two.
pub open spec fn joined(parts: Seq<Seq<char>>) -> Seq<char>
    decreases parts.len(),
{
    if parts.len() == 0 {
        Seq::empty()
    } else if parts.len() == 1 {
        parts[0]
    } else {
        joined(parts.drop_last()).push('/') + parts.last()
    }
}

/// `s` without the `./` pairs that it begins with.
pub open spec fn undotted(s: Seq<char>) -> Seq<char>
    decreases s.len(),
{
    if starts_with(s, seq!['.', '/']) {
        undotted(s.subrange(2, s.len() as int))
    } else {
        s
    }
}

/// A path that starts at the root of the file system.
pub open spec fn is_absolute(path: Seq<char>) -> bool {
    path.len() > 0 && path[0] == '/'
}

/// All components but the last: those of the directory that holds the path.
pub open spec fn directory(components: Seq<Seq<char>>) -> Seq<Seq<char>> {
    if components.len() == 0 {
        components
    } else {
        components.drop_last()
    }
}

/// The path inside the archive that `href` names when it is read in the document
/// `base`: the components of the document's directory, then those of the reference.
/// Backslashes count as slashes. An absolute reference, a reference in a document with an
/// absolute path, and one that climbs above the root name nothing.
pub open spec fn resolved(base: Seq<char>, href: Seq<char>) -> Option<Seq<char>> {
    let doc = slashed(base);
    let link = undotted(slashed(href));
    if is_absolute(link) || (is_absolute(doc) && components(doc).len() > 0) {
        None
    } else {
        match walked(directory(components(doc)) + components(link)) {
            Some(place) => Some(joined(place)),
            None => None,
        }
    }
}

/// The last component of a path, where that is a name.
pub open spec fn base_name(path: Seq<char>) -> Option<Seq<char>> {
    let parts = components(path);
    if parts.len() == 0 || is_parent(parts.last()) {
        None
    } else {
        Some(parts.last())
    }
}

/// What the parts spell.
pub open spec fn spelled(parts: Seq<Vec<char>>) -> Seq<Seq<char>> {
    parts.map_values(|p: Vec<char>| p@)
}

fn is_dot(piece: &Vec<char>) -> (b: bool)
    ensures
        b == (piece@ == seq!['.']),
{
    let b = piece.len() == 1 && piece[0] == '.';
    assert(b ==> piece@ =~= seq!['.']);
    b
}

fn is_dot_dot(piece: &Vec<char>) -> (b: bool)
    ensures
        b == is_parent(piece@),
{
    let b = piece.len() == 2 && piece[0] == '.' && piece[1] == '.';
    assert(b ==> piece@ =~= seq!['.', '.']);
    b
}

/// The components of a path.
fn path_components(path: &Vec<char>) -> (parts: Vec<Vec<char>>)
    ensures
        spelled(parts@) == components(path@),
{
    let mut parts: Vec<Vec<char>> = Vec::new();
    let mut piece: Vec<char> = Vec::new();
    let mut i: usize = 0;
    assert(path@.take(0) =~= Seq::<char>::empty());
    while i < path.len()
        invariant
            i <= path@.len(),
            pieces(path@.take(i as int)).len() > 0,
            piece@ == pieces(path@.take(i as int)).last(),
            spelled(parts@) =~= kept_pieces(pieces(path@.take(i as int)).drop_last()),
        decreases path@.len() - i,
    {
        let c = path[i];
        let ghost before = pieces(path@.take(i as int));
        let ghost old_parts = parts@;
        proof {
            assert(path@.take(i + 1).drop_last() =~= path@.take(i as int));
            assert(path@.take(i + 1).last() == c);
        }
        if c == '/' {
            proof {
                assert(pieces(path@.take(i + 1)).drop_last() =~= before);
            }
            if piece.len() > 0 && !is_dot(&piece) {
                parts.push(piece);
                assert(spelled(parts@) =~= spelled(old_parts).push(piece@));
            }
            piece = Vec::new();
        } else {
            piece.push(c);
            proof {
                assert(pieces(path@.take(i + 1)).drop_last() =~= before.drop_last());
            }
        }
        i += 1;
    }
    assert(path@.take(i as int) =~= path@);
    let ghost old_parts = parts@;
    if piece.len() > 0 && !is_dot(&piece) {
        parts.push(piece);
        assert(spelled(parts@) =~= spelled(old_parts).push(piece@));
    }
    parts
}

/// `s` without the `./` pairs that it begins with.
fn without_dots(s: &Vec<char>) -> (r: Vec<char>)
    ensures
        r@ == undotted(s@),
{
    let mut i: usize = 0;
    assert(s@.subrange(0, s@.len() as int) =~= s@);
    while s.len() - i >= 2 && s[i] == '.' && s[i + 1] == '/'
        invariant
            i <= s@.len(),
            undotted(s@) == undotted(s@.subrange(i as int, s@.len() as int)),
        decreases s@.len() - i,
    {
        let ghost rest = s@.subrange(i as int, s@.len() as int);
        assert(rest.subrange(0, 2) =~= seq!['.', '/']);
        assert(rest.subrange(2, rest.len() as int) =~= s@.subrange(i + 2, s@.len() as int));
        i += 2;
    }
    let ghost rest = s@.subrange(i as int, s@.len() as int);
    proof {
        if starts_with(rest, seq!['.', '/']) {
            assert(rest.subrange(0, 2)[0] == '.');
            assert(rest.subrange(0, 2)[1] == '/');
            assert(false);
        }
    }
    crate::text::part(s.as_slice(), i, s.len())
}

/// Follow `components` from `place`; `None` once a `..` would leave the root.
fn follow(place: Vec<Vec<char>>, components: Vec<Vec<char>>, upto: usize) -> (r: Option<
    Vec<Vec<char>>,
>)
    requires
        upto <= components@.len(),
    ensures
        forall|done: Seq<Seq<char>>| #[trigger]
            walked(done) == Some(spelled(place@)) ==> match r {
                Some(end) => walked(done + spelled(components@.take(upto as int))) == Some(
                    spelled(end@),
                ),
                None => walked(done + spelled(components@.take(upto as int))) is None,
            },
{
    let mut end = place;
    let mut i: usize = 0;
    proof {
        assert forall|done: Seq<Seq<char>>| #[trigger]
            walked(done) == Some(spelled(place@)) implies walked(
            done + spelled(components@.take(0)),
        ) == Some(spelled(end@)) by {
            assert(done + spelled(components@.take(0)) =~= done);
        }
    }
    while i < upto
        invariant
            i <= upto <= components@.len(),
            forall|done: Seq<Seq<char>>| #[trigger]
                walked(done) == Some(spelled(place@)) ==> walked(
                    done + spelled(components@.take(i as int)),
                ) == Some(spelled(end@)),
        decreases upto - i,
    {
        let ghost old_end = end@;
        let ghost comp = components@[i as int]@;
        proof {
            assert forall|done: Seq<Seq<char>>| #[trigger]
                walked(done) == Some(spelled(place@)) implies walked(
                done + spelled(components@.take(i + 1)),
            ) == (if is_parent(comp) {
                if old_end.len() == 0 {
                    None
                } else {
                    Some(spelled(old_end).drop_last())
                }
            } else {
                Some(spelled(old_end).push(comp))
            }) by {
                let all = done + spelled(components@.take(i + 1));
                assert(all.drop_last() =~= done + spelled(components@.take(i as int)));
                assert(all.last() == comp);
            }
        }
        if is_dot_dot(&components[i]) {
            if end.len() == 0 {
                proof {
                    assert forall|done: Seq<Seq<char>>| #[trigger]
                        walked(done) == Some(spelled(place@)) implies walked(
                        done + spelled(components@.take(upto as int)),
                    ) is None by {
                        assert(walked(done + spelled(components@.take(i + 1))) is None);
                        lemma_walked_none(
                            done + spelled(components@.take(i + 1)),
                            spelled(components@.subrange(i + 1, upto as int)),
                        );
                        assert(done + spelled(components@.take(i + 1)) + spelled(
                            components@.subrange(i + 1, upto as int),
                        ) =~= done + spelled(components@.take(upto as int)));
                    }
                }
                return None;
            }
            end.pop();
            assert(spelled(end@) =~= spelled(old_end).drop_last());
        } else {
            end.push(crate::text::part(components[i].as_slice(), 0, components[i].len()));
            assert(end@.last()@ =~= comp);
            assert(spelled(end@) =~= spelled(old_end).push(comp));
        }
        i += 1;
    }
    Some(end)
}

/// A walk that has left the root does not come back.
proof fn lemma_walked_none(done: Seq<Seq<char>>, more: Seq<Seq<char>>)
    requires
        walked(done) is None,
    ensures
        walked(done + more) is None,
    decreases more.len(),
{
    if more.len() == 0 {
        assert(done + more =~= done);
    } else {
        lemma_walked_none(done, more.drop_last());
        assert((done + more).drop_last() =~= done + more.drop_last());
    }
}

fn join_parts(parts: &Vec<Vec<char>>) -> (s: String)
    ensures
        s@ == joined(spelled(parts@)),
{
    let mut out: Vec<char> = Vec::new();
    let mut i: usize = 0;
    while i < parts.len()
        invariant
            i <= parts@.len(),
            out@ =~= joined(spelled(parts@.take(i as int))),
        decreases parts@.len() - i,
    {
        let ghost upto = spelled(parts@.take(i + 1));
        assert(upto.drop_last() =~= spelled(parts@.take(i as int)));
        if i > 0 {
            out.push('/');
        }
        let ghost head = out@;
        let mut j: usize = 0;
        while j < parts[i as usize].len()
            invariant
                i < parts@.len(),
                j <= parts@[i as int]@.len(),
                out@ =~= head + parts@[i as int]@.take(j as int),
            decreases parts@[i as int]@.len() - j,
        {
            out.push(parts[i][j]);
            j += 1;
        }
        i += 1;
    }
    assert(parts@.take(i as int) =~= parts@);
    string_of(out.as_slice())
}

/// Resolve a reference that may be relative (`../shared/sharedResource`,
/// `./geometryData/0`) against the document that holds it. `None` if the resolved path
/// would escape the archive root.
pub fn resolve_uri(base_doc_path: &str, href: &str) -> (r: Option<String>)
    ensures
        match r {
            Some(path) => resolved(base_doc_path@, href@) == Some(path@),
            None => resolved(base_doc_path@, href@) is None,
        },
{
    let doc = slashed_chars(base_doc_path);
    let slashed_href = slashed_chars(href);
    let link = without_dots(&slashed_href);
    if link.len() > 0 && link[0] == '/' {
        return None;
    }
    let base = path_components(&doc);
    if doc.len() > 0 && doc[0] == '/' && base.len() > 0 {
        return None;
    }
    let parts = path_components(&link);
    let depth: usize = if base.len() == 0 { 0 } else { base.len() - 1 };
    let root: Vec<Vec<char>> = Vec::new();
    let ghost dir = spelled(base@.take(depth as int));
    let ghost all_parts = spelled(parts@);
    proof {
        assert(spelled(root@) =~= Seq::empty());
        assert(walked(Seq::empty()) == Some(spelled(root@)));
        assert(Seq::<Seq<char>>::empty() + dir =~= dir);
        assert(dir =~= directory(components(doc@)));
        assert(spelled(parts@.take(parts@.len() as int)) =~= all_parts);
    }
    match follow(root, base, depth) {
        None => {
            proof {
                lemma_walked_none(dir, all_parts);
            }
            None
        },
        Some(place) => {
            let n: usize = parts.len();
            match follow(place, parts, n) {
                None => None,
                Some(end) => Some(join_parts(&end)),
            }
        },
    }
}

/// The last component of a path, where that is a name.
pub fn file_name(path: &str) -> (r: Option<String>)
    ensures
        match r {
            Some(name) => base_name(path@) == Some(name@),
            None => base_name(path@) is None,
        },
{
    let path = chars_of(path);
    let parts = path_components(&path);
    if parts.len() == 0 {
        return None;
    }
    let last = &parts[parts.len() - 1];
    assert(last@ == spelled(parts@).last());
    if is_dot_dot(last) {
        None
    } else {
        Some(string_of(last.as_slice()))
    }
}

/// `c` does not stand in `s`.
pub open spec fn lacks(s: Seq<char>, c: char) -> bool {
    forall|i: int| 0 <= i < s.len() ==> s[i] != c
}

/// A component that names an entry: no `.`, no `..`, no slash or backslash inside.
pub open spec fn is_name(component: Seq<char>) -> bool {
    is_component(component) && !is_parent(component) && lacks(component, '/') && lacks(
        component,
        '\\',
    )
}

/// Every part names an entry.
pub open spec fn all_names(parts: Seq<Seq<char>>) -> bool {
    forall|i: int| 0 <= i < parts.len() ==> is_name(#[trigger] parts[i])
}

proof fn lemma_pieces_lack_slash(s: Seq<char>, c: char)
    requires
        c == '/' || lacks(s, c),
    ensures
        pieces(s).len() > 0,
        forall|i: int| 0 <= i < pieces(s).len() ==> lacks(#[trigger] pieces(s)[i], c),
    decreases s.len(),
{
    if s.len() > 0 {
        lemma_pieces_lack_slash(s.drop_last(), c);
    }
}

proof fn lemma_kept_pieces(all: Seq<Seq<char>>, c: char)
    requires
        forall|i: int| 0 <= i < all.len() ==> lacks(#[trigger] all[i], c),
    ensures
        forall|i: int|
            0 <= i < kept_pieces(all).len() ==> is_component(#[trigger] kept_pieces(all)[i]) && lacks(
                kept_pieces(all)[i],
                c,
            ),
    decreases all.len(),
{
    if all.len() > 0 {
        assert forall|i: int| 0 <= i < all.drop_last().len() implies lacks(
            #[trigger] all.drop_last()[i],
            c,
        ) by {
            assert(all.drop_last()[i] == all[i]);
        }
        lemma_kept_pieces(all.drop_last(), c);
        assert(lacks(all[all.len() - 1], c));
        let rest = kept_pieces(all.drop_last());
        assert forall|i: int| 0 <= i < kept_pieces(all).len() implies is_component(
            #[trigger] kept_pieces(all)[i],
        ) && lacks(kept_pieces(all)[i], c) by {
            if i < rest.len() {
                assert(kept_pieces(all)[i] == rest[i]);
            } else {
                assert(kept_pieces(all)[i] == all.last());
            }
        }
    }
}

proof fn lemma_components_lack(s: Seq<char>, c: char)
    requires
        c == '/' || lacks(s, c),
    ensures
        forall|i: int|
            0 <= i < components(s).len() ==> is_component(#[trigger] components(s)[i]) && lacks(
                components(s)[i],
                c,
            ),
{
    lemma_pieces_lack_slash(s, c);
    lemma_kept_pieces(pieces(s), c);
}

proof fn lemma_slashed(s: Seq<char>)
    ensures
        lacks(slashed(s), '\\'),
{
}

proof fn lemma_undotted_lacks(s: Seq<char>, c: char)
    requires
        lacks(s, c),
    ensures
        lacks(undotted(s), c),
    decreases s.len(),
{
    if starts_with(s, seq!['.', '/']) {
        lemma_undotted_lacks(s.subrange(2, s.len() as int), c);
    }
}

proof fn lemma_walked_names(parts: Seq<Seq<char>>)
    requires
        forall|i: int|
            0 <= i < parts.len() ==> is_component(#[trigger] parts[i]) && lacks(parts[i], '/') && lacks(
                parts[i],
                '\\',
            ),
    ensures
        walked(parts) matches Some(place) ==> all_names(place),
    decreases parts.len(),
{
    if parts.len() > 0 {
        lemma_walked_names(parts.drop_last());
    }
}

proof fn lemma_pieces_of_name(b: Seq<char>)
    requires
        lacks(b, '/'),
    ensures
        pieces(b) == seq![b],
    decreases b.len(),
{
    if b.len() > 0 {
        lemma_pieces_of_name(b.drop_last());
        assert(pieces(b) =~= seq![b.drop_last().push(b.last())]);
        assert(b.drop_last().push(b.last()) =~= b);
    } else {
        assert(b =~= Seq::empty());
    }
}

proof fn lemma_pieces_append(a: Seq<char>, b: Seq<char>)
    requires
        lacks(b, '/'),
    ensures
        pieces(a.push('/') + b) == pieces(a).push(b),
    decreases b.len(),
{
    let s = a.push('/') + b;
    if b.len() == 0 {
        assert(s.drop_last() =~= a);
        assert(s.last() == '/');
        assert(b =~= Seq::empty());
    } else {
        lemma_pieces_append(a, b.drop_last());
        assert(s.drop_last() =~= a.push('/') + b.drop_last());
        assert(s.last() == b.last());
        assert(b.drop_last().push(b.last()) =~= b);
        assert(pieces(s) =~= pieces(a).push(b));
    }
}

proof fn lemma_components_of_joined(parts: Seq<Seq<char>>)
    requires
        all_names(parts),
    ensures
        components(joined(parts)) == parts,
        lacks(joined(parts), '\\'),
        parts.len() > 0 ==> pieces(joined(parts)) == parts,
    decreases parts.len(),
{
    if parts.len() == 0 {
        assert(pieces(joined(parts)) =~= seq![Seq::empty()]);
        assert(seq![Seq::<char>::empty()].drop_last() =~= Seq::<Seq<char>>::empty());
        assert(kept_pieces(seq![Seq::<char>::empty()].drop_last()) =~= Seq::empty());
        assert(components(joined(parts)) =~= parts);
    } else {
        let head = parts.drop_last();
        lemma_components_of_joined(head);
        if parts.len() == 1 {
            lemma_pieces_of_name(parts[0]);
            assert(pieces(joined(parts)) =~= parts);
        } else {
            lemma_pieces_append(joined(head), parts.last());
            assert(pieces(joined(parts)) =~= parts);
        }
        lemma_all_kept(parts);
    }
}

proof fn lemma_all_kept(parts: Seq<Seq<char>>)
    requires
        all_names(parts),
    ensures
        kept_pieces(parts) == parts,
    decreases parts.len(),
{
    if parts.len() > 0 {
        lemma_all_kept(parts.drop_last());
        assert(kept_pieces(parts) =~= parts);
    } else {
        assert(kept_pieces(parts) =~= parts);
    }
}

proof fn lemma_walk_names(parts: Seq<Seq<char>>)
    requires
        all_names(parts),
    ensures
        walked(parts) == Some(parts),
    decreases parts.len(),
{
    if parts.len() > 0 {
        lemma_walk_names(parts.drop_last());
        assert(parts.drop_last().push(parts.last()) =~= parts);
    } else {
        assert(parts =~= Seq::empty());
    }
}

proof fn lemma_joined_head(parts: Seq<Seq<char>>)
    requires
        parts.len() > 0,
    ensures
        joined(parts).len() >= parts[0].len(),
        joined(parts).take(parts[0].len() as int) == parts[0],
        joined(parts).len() > parts[0].len() ==> joined(parts)[parts[0].len() as int] == '/',
    decreases parts.len(),
{
    if parts.len() > 1 {
        lemma_joined_head(parts.drop_last());
        assert(joined(parts).take(parts[0].len() as int) =~= joined(parts.drop_last()).take(
            parts[0].len() as int,
        ));
    } else {
        assert(joined(parts).take(parts[0].len() as int) =~= parts[0]);
    }
}

proof fn lemma_joined_is_plain(parts: Seq<Seq<char>>)
    requires
        all_names(parts),
    ensures
        !is_absolute(joined(parts)),
        undotted(joined(parts)) == joined(parts),
        slashed(joined(parts)) == joined(parts),
{
    lemma_components_of_joined(parts);
    assert(slashed(joined(parts)) =~= joined(parts));
    if parts.len() > 0 {
        lemma_joined_head(parts);
        let first = parts[0];
        let path = joined(parts);
        assert(is_name(first));
        assert(path[0] == path.take(first.len() as int)[0]);
        if starts_with(path, seq!['.', '/']) {
            assert(path.subrange(0, 2)[0] == '.');
            assert(path.subrange(0, 2)[1] == '/');
            if first.len() > 1 {
                assert(path.take(first.len() as int)[1] == '/');
                assert(first[1] == '/');
            } else {
                assert(first =~= seq!['.']);
            }
            assert(false);
        }
    }
}

/// The place that a reference resolves to is named by plain names only: no absolute
/// path, no `..`, no backslash. Nothing outside the archive root can be reached.
pub proof fn resolved_stays_inside(base: Seq<char>, href: Seq<char>)
    ensures
        resolved(base, href) matches Some(path) ==> {
            &&& !is_absolute(path)
            &&& all_names(components(path))
            &&& path == joined(components(path))
        },
{
    let doc = slashed(base);
    let link = undotted(slashed(href));
    lemma_slashed(base);
    lemma_slashed(href);
    lemma_undotted_lacks(slashed(href), '\\');
    lemma_components_lack(doc, '/');
    lemma_components_lack(doc, '\\');
    lemma_components_lack(link, '/');
    lemma_components_lack(link, '\\');
    let all = directory(components(doc)) + components(link);
    lemma_walked_names(all);
    if let Some(place) = walked(all) {
        lemma_components_of_joined(place);
        lemma_joined_is_plain(place);
    }
}

/// A resolved path is its own resolution at the root: resolving it once more changes
/// nothing.
pub proof fn resolved_is_stable(base: Seq<char>, href: Seq<char>)
    ensures
        resolved(base, href) matches Some(path) ==> resolved(Seq::empty(), path) == Some(path),
{
    resolved_stays_inside(base, href);
    if let Some(path) = resolved(base, href) {
        let parts = components(path);
        lemma_components_of_joined(parts);
        lemma_joined_is_plain(parts);
        lemma_walk_names(parts);
        let empty = Seq::<char>::empty();
        assert(slashed(empty) =~= empty);
        lemma_components_of_joined(Seq::empty());
        assert(components(empty) =~= Seq::empty());
        assert(directory(components(empty)) + parts =~= parts);
    }
}

/// A plain relative reference in a document at the root names exactly itself.
pub proof fn plain_reference_at_root(doc: Seq<char>, parts: Seq<Seq<char>>)
    requires
        is_name(doc),
        all_names(parts),
    ensures
        resolved(doc, joined(parts)) == Some(joined(parts)),
{
    lemma_components_of_joined(parts);
    lemma_joined_is_plain(parts);
    lemma_walk_names(parts);
    let one = seq![doc];
    assert(all_names(one));
    lemma_components_of_joined(one);
    lemma_joined_is_plain(one);
    assert(joined(one) == doc);
    assert(directory(components(doc)) + parts =~= parts);
}

/// The step back to the parent directory.
pub open spec fn step_back() -> Seq<char> {
    seq!['.', '.']
}

/// As many steps back.
pub open spec fn steps_back(count: nat) -> Seq<Seq<char>> {
    Seq::new(count, |i: int| step_back())
}

proof fn lemma_pieces_joined(a: Seq<char>, b: Seq<char>)
    ensures
        pieces(a.push('/') + b) == pieces(a) + pieces(b),
        pieces(b).len() > 0,
    decreases b.len(),
{
    let s = a.push('/') + b;
    if b.len() == 0 {
        assert(s.drop_last() =~= a);
        assert(s.last() == '/');
        assert(pieces(a).push(Seq::empty()) =~= pieces(a) + pieces(b));
    } else {
        lemma_pieces_joined(a, b.drop_last());
        assert(s.drop_last() =~= a.push('/') + b.drop_last());
        assert(s.last() == b.last());
        assert(pieces(s) =~= pieces(a) + pieces(b));
    }
}

proof fn lemma_kept_pieces_joined(a: Seq<Seq<char>>, b: Seq<Seq<char>>)
    ensures
        kept_pieces(a + b) == kept_pieces(a) + kept_pieces(b),
    decreases b.len(),
{
    if b.len() == 0 {
        assert(a + b =~= a);
        assert(kept_pieces(a) + kept_pieces(b) =~= kept_pieces(a));
    } else {
        lemma_kept_pieces_joined(a, b.drop_last());
        assert((a + b).drop_last() =~= a + b.drop_last());
        assert((a + b).last() == b.last());
        assert(kept_pieces(a + b) =~= kept_pieces(a) + kept_pieces(b));
    }
}

/// The components of two paths with a slash between them are those of the one, then those
/// of the other.
pub proof fn slash_separates_components(a: Seq<char>, b: Seq<char>)
    ensures
        components(a + "/"@ + b) == components(a) + components(b),
{
    reveal_strlit("/");
    assert(a + "/"@ + b =~= a.push('/') + b);
    lemma_pieces_joined(a, b);
    lemma_kept_pieces_joined(pieces(a), pieces(b));
}

/// What holds no slash is a component by itself, but for nothing and for `.`, which are none.
pub proof fn piece_is_a_component_by_itself(piece: Seq<char>)
    requires
        forall|i: int| 0 <= i < piece.len() ==> piece[i] != '/',
    ensures
        components(piece) == (if piece == ""@ || piece == "."@ {
            Seq::empty()
        } else {
            seq![piece]
        }),
{
    reveal_strlit("");
    reveal_strlit(".");
    assert("."@ =~= seq!['.']);
    assert(lacks(piece, '/'));
    lemma_pieces_of_name(piece);
    let one = seq![piece];
    assert(one.drop_last() =~= Seq::empty());
    assert(kept_pieces(one.drop_last()) =~= Seq::empty());
    if piece.len() == 0 {
        assert(piece =~= ""@);
    } else {
        assert(piece != ""@);
    }
    assert(kept_pieces(one) =~= (if is_component(piece) {
        one
    } else {
        Seq::empty()
    }));
}

/// Joining puts one slash between two neighbours, and no other.
pub proof fn one_slash_between_neighbours(a: Seq<Seq<char>>, b: Seq<Seq<char>>)
    requires
        a.len() > 0,
        b.len() > 0,
    ensures
        joined(a + b) == joined(a) + "/"@ + joined(b),
        a.len() == 1 ==> joined(a) == a[0],
    decreases b.len(),
{
    reveal_strlit("/");
    let last = b.last();
    let rest = b.drop_last();
    assert((a + b).drop_last() =~= a + rest);
    assert((a + b).last() == last);
    if rest.len() == 0 {
        assert(a + rest =~= a);
        assert(joined(a + b) =~= joined(a) + "/"@ + joined(b));
    } else {
        one_slash_between_neighbours(a, rest);
        assert(joined(a + b) =~= joined(a) + "/"@ + joined(b));
    }
}

/// A walk goes on from where it is: only the place that was reached counts for what follows,
/// and a walk that left the root does not come back.
pub proof fn walk_goes_on_from_where_it_is(done: Seq<Seq<char>>, more: Seq<Seq<char>>)
    ensures
        match walked(done) {
            Some(place) => walked(done + more) == walked(place + more),
            None => walked(done + more) is None,
        },
    decreases more.len(),
{
    if more.len() == 0 {
        assert(done + more =~= done);
        if let Some(place) = walked(done) {
            assert(place + more =~= place);
            lemma_place_is_walked(done);
        }
    } else {
        walk_goes_on_from_where_it_is(done, more.drop_last());
        assert((done + more).drop_last() =~= done + more.drop_last());
        assert((done + more).last() == more.last());
        if let Some(place) = walked(done) {
            assert((place + more).drop_last() =~= place + more.drop_last());
            assert((place + more).last() == more.last());
        }
    }
}

/// The place that a walk reaches is reached by its own components.
proof fn lemma_place_is_walked(done: Seq<Seq<char>>)
    ensures
        walked(done) matches Some(place) ==> walked(place) == Some(place),
    decreases done.len(),
{
    if done.len() > 0 {
        lemma_place_is_walked(done.drop_last());
        if let Some(place) = walked(done.drop_last()) {
            if is_parent(done.last()) {
                if place.len() > 0 {
                    let before = place.drop_last();
                    assert(walked(before) is Some);
                    if is_parent(place.last()) {
                        lemma_walked_is_short(before);
                        assert((walked(before)->0).drop_last() == place);
                        assert(false);
                    } else {
                        let there = walked(before)->0;
                        assert(there.push(place.last()) == place);
                        assert(there =~= before);
                    }
                }
            } else {
                assert(place.push(done.last()).drop_last() =~= place);
            }
        }
    }
}

/// No place is further from the root than the walk is long.
proof fn lemma_walked_is_short(done: Seq<Seq<char>>)
    ensures
        walked(done) matches Some(place) ==> place.len() <= done.len(),
    decreases done.len(),
{
    if done.len() > 0 {
        lemma_walked_is_short(done.drop_last());
    }
}

/// A step back undoes a step forward, up to the root itself, and from the root there is none.
pub proof fn step_back_undoes_a_step(place: Seq<Seq<char>>, name: Seq<char>, more: Seq<Seq<char>>)
    requires
        all_names(place),
        is_name(name),
    ensures
        walked(place) == Some(place),
        walked(place + seq![name, step_back()]) == Some(place),
        walked(seq![step_back()] + more) is None,
{
    lemma_walk_names(place);
    let there = place.push(name);
    assert(all_names(there)) by {
        assert forall|i: int| 0 <= i < there.len() implies is_name(#[trigger] there[i]) by {
            if i < place.len() {
                assert(there[i] == place[i]);
            }
        }
    }
    lemma_walk_names(there);
    let back = place + seq![name, step_back()];
    assert(back.drop_last() =~= there);
    assert(back.last() == step_back());
    assert(there.drop_last() =~= place);
    let first = seq![step_back()];
    assert(first.drop_last() =~= Seq::empty());
    assert(walked(first.drop_last()) == Some(Seq::<Seq<char>>::empty()));
    assert(walked(first) is None);
    walk_goes_on_from_where_it_is(first, more);
}

/// Going as many steps back as forward ends where it began; going further leaves the root.
proof fn lemma_steps_back(place: Seq<Seq<char>>, names: Seq<Seq<char>>, count: nat)
    requires
        all_names(place + names),
        count <= names.len(),
    ensures
        walked(place + names + steps_back(count)) == Some(
            place + names.take(names.len() - count),
        ),
    decreases count,
{
    let all = place + names;
    lemma_walk_names(all);
    let path = all + steps_back(count);
    if count == 0 {
        assert(path =~= all);
        assert(names.take(names.len() as int) =~= names);
    } else {
        lemma_steps_back(place, names, (count - 1) as nat);
        assert(path.drop_last() =~= all + steps_back((count - 1) as nat));
        assert(path.last() == step_back());
        let there = place + names.take(names.len() - (count - 1));
        assert(there.drop_last() =~= place + names.take(names.len() - count));
    }
}

proof fn lemma_too_many_steps_back(names: Seq<Seq<char>>, count: nat)
    requires
        all_names(names),
        count > names.len(),
    ensures
        walked(names + steps_back(count)) is None,
    decreases count,
{
    let path = names + steps_back(count);
    let before = names + steps_back((count - 1) as nat);
    assert(path.drop_last() =~= before);
    assert(path.last() == step_back());
    if count - 1 > names.len() {
        lemma_too_many_steps_back(names, (count - 1) as nat);
    } else {
        let root = Seq::<Seq<char>>::empty();
        assert(root + names =~= names);
        lemma_steps_back(root, names, names.len());
        assert(root + names.take(0) =~= root);
    }
}

/// The components of parts that are components are these.
proof fn lemma_components_back(parts: Seq<Seq<char>>)
    requires
        forall|i: int|
            0 <= i < parts.len() ==> is_component(#[trigger] parts[i]) && lacks(parts[i], '/'),
    ensures
        components(joined(parts)) == parts,
    decreases parts.len(),
{
    if parts.len() == 0 {
        lemma_components_of_joined(parts);
    } else {
        let head = parts.drop_last();
        let last = parts.last();
        assert(last == parts[parts.len() - 1]);
        assert forall|i: int| 0 <= i < head.len() implies is_component(#[trigger] head[i]) && lacks(
            head[i],
            '/',
        ) by {
            assert(head[i] == parts[i]);
        }
        lemma_components_back(head);
        piece_is_a_component_by_itself(last);
        reveal_strlit("");
        reveal_strlit(".");
        assert("."@ =~= seq!['.']);
        if head.len() == 0 {
            assert(parts =~= seq![last]);
        } else {
            reveal_strlit("/");
            slash_separates_components(joined(head), last);
            assert(joined(parts) =~= joined(head) + "/"@ + last);
            assert(head + seq![last] =~= parts);
        }
    }
}

/// The reference that goes as many steps back and then along the parts.
pub open spec fn climbing(count: nat, parts: Seq<Seq<char>>) -> Seq<char> {
    joined(steps_back(count) + parts)
}

/// A reference that begins with a step back is taken as it stands.
proof fn lemma_climbing_is_plain(count: nat, parts: Seq<Seq<char>>)
    requires
        all_names(parts),
    ensures
        components(climbing(count, parts)) == steps_back(count) + parts,
        !is_absolute(climbing(count, parts)),
        undotted(climbing(count, parts)) == climbing(count, parts),
        slashed(climbing(count, parts)) == climbing(count, parts),
{
    let all = steps_back(count) + parts;
    let path = joined(all);
    assert forall|i: int| 0 <= i < all.len() implies is_component(#[trigger] all[i]) && lacks(
        all[i],
        '/',
    ) && lacks(all[i], '\\') by {
        if i < count {
            assert(all[i] == step_back());
        } else {
            assert(all[i] == parts[i - count]);
        }
    }
    lemma_components_back(all);
    lemma_joined_lacks(all);
    assert(slashed(path) =~= path);
    if count == 0 {
        assert(all =~= parts);
        lemma_joined_is_plain(parts);
    } else {
        lemma_joined_head(all);
        assert(all[0] == step_back());
        assert(path.take(2)[0] == '.' && path.take(2)[1] == '.');
        if starts_with(path, seq!['.', '/']) {
            assert(path.subrange(0, 2)[1] == '/');
        }
    }
}

proof fn lemma_joined_lacks(parts: Seq<Seq<char>>)
    requires
        forall|i: int| 0 <= i < parts.len() ==> lacks(#[trigger] parts[i], '\\'),
    ensures
        lacks(joined(parts), '\\'),
    decreases parts.len(),
{
    if parts.len() > 1 {
        let head = parts.drop_last();
        assert forall|i: int| 0 <= i < head.len() implies lacks(#[trigger] head[i], '\\') by {
            assert(head[i] == parts[i]);
        }
        lemma_joined_lacks(head);
        assert(lacks(parts[parts.len() - 1], '\\'));
    } else if parts.len() == 1 {
        assert(lacks(parts[0], '\\'));
    }
}

/// A reference is read in the directory of its document: in the document `doc` of the
/// directory `dir / below`, as many steps back as `below` is deep lead to `dir`, and the
/// parts are found there. Without a step back they are found beside the document.
pub proof fn reference_is_read_beside_its_document(
    dir: Seq<Seq<char>>,
    below: Seq<Seq<char>>,
    doc: Seq<char>,
    parts: Seq<Seq<char>>,
)
    requires
        all_names(dir),
        all_names(below),
        is_name(doc),
        all_names(parts),
    ensures
        resolved(joined((dir + below).push(doc)), climbing(below.len(), parts)) == Some(
            joined(dir + parts),
        ),
{
    let place = dir + below;
    assert(all_names(place)) by {
        assert forall|i: int| 0 <= i < place.len() implies is_name(#[trigger] place[i]) by {
            if i < dir.len() {
                assert(place[i] == dir[i]);
            } else {
                assert(place[i] == below[i - dir.len()]);
            }
        }
    }
    let whole = place.push(doc);
    assert(all_names(whole)) by {
        assert forall|i: int| 0 <= i < whole.len() implies is_name(#[trigger] whole[i]) by {
            if i < place.len() {
                assert(whole[i] == place[i]);
            }
        }
    }
    lemma_components_of_joined(whole);
    lemma_joined_is_plain(whole);
    lemma_climbing_is_plain(below.len(), parts);
    assert(directory(whole) =~= place);
    let back = place + steps_back(below.len());
    lemma_steps_back(dir, below, below.len());
    assert(dir + below.take(0) =~= dir);
    walk_goes_on_from_where_it_is(back, parts);
    assert(place + (steps_back(below.len()) + parts) =~= back + parts);
    let end = dir + parts;
    assert(all_names(end)) by {
        assert forall|i: int| 0 <= i < end.len() implies is_name(#[trigger] end[i]) by {
            if i < dir.len() {
                assert(end[i] == dir[i]);
            } else {
                assert(end[i] == parts[i - dir.len()]);
            }
        }
    }
    lemma_walk_names(end);
}

/// A reference with more steps back than its document's directory is deep names nothing.
pub proof fn reference_above_the_root_names_nothing(
    dir: Seq<Seq<char>>,
    doc: Seq<char>,
    count: nat,
    parts: Seq<Seq<char>>,
)
    requires
        all_names(dir),
        is_name(doc),
        count > dir.len(),
        all_names(parts),
    ensures
        resolved(joined(dir.push(doc)), climbing(count, parts)) is None,
{
    let whole = dir.push(doc);
    assert(all_names(whole)) by {
        assert forall|i: int| 0 <= i < whole.len() implies is_name(#[trigger] whole[i]) by {
            if i < dir.len() {
                assert(whole[i] == dir[i]);
            }
        }
    }
    lemma_components_of_joined(whole);
    lemma_joined_is_plain(whole);
    lemma_climbing_is_plain(count, parts);
    assert(directory(whole) =~= dir);
    lemma_too_many_steps_back(dir, count);
    walk_goes_on_from_where_it_is(dir + steps_back(count), parts);
    assert(dir + (steps_back(count) + parts) =~= dir + steps_back(count) + parts);
}

/// A reference from the root of the file system names nothing, and neither does one in a
/// document there.
pub proof fn absolute_paths_name_nothing(base: Seq<char>, rest: Seq<char>, name: Seq<char>)
    requires
        is_name(name),
    ensures
        resolved(base, "/"@ + rest) is None,
        resolved("/"@ + name, rest) is None,
{
    reveal_strlit("/");
    let href = slashed("/"@ + rest);
    assert(href[0] == '/');
    if starts_with(href, seq!['.', '/']) {
        assert(href.subrange(0, 2)[0] == '.');
    }
    let doc = slashed("/"@ + name);
    assert(doc =~= "/"@ + name);
    assert(doc[0] == '/');
    let empty = Seq::<char>::empty();
    slash_separates_components(empty, name);
    assert(empty + "/"@ + name =~= doc);
    piece_is_a_component_by_itself(name);
    reveal_strlit("");
    reveal_strlit(".");
    assert("."@ =~= seq!['.']);
}

/// A leading `./` does not count, and backslashes count as slashes.
pub proof fn spelling_does_not_count(base: Seq<char>, href: Seq<char>)
    ensures
        resolved(base, "./"@ + href) == resolved(base, href),
        resolved(slashed(base), slashed(href)) == resolved(base, href),
{
    reveal_strlit("./");
    let dotted = slashed("./"@ + href);
    assert(dotted.subrange(0, 2) =~= seq!['.', '/']);
    assert(dotted.subrange(2, dotted.len() as int) =~= slashed(href));
    assert(starts_with(dotted, seq!['.', '/']));
    assert(slashed(slashed(base)) =~= slashed(base));
    assert(slashed(slashed(href)) =~= slashed(href));
}

/// The last component of a path is its name: slashes at its end do not count, and `..` is no
/// name.
pub proof fn base_name_is_the_last_name(dir: Seq<char>, name: Seq<char>)
    requires
        is_name(name),
    ensures
        base_name(name) == Some(name),
        base_name(dir + "/"@ + name) == Some(name),
        base_name(dir + "/"@) == base_name(dir),
        base_name(dir + "/.."@) is None,
        base_name(Seq::empty()) is None,
{
    reveal_strlit("");
    reveal_strlit(".");
    reveal_strlit("/");
    reveal_strlit("/..");
    assert("."@ =~= seq!['.']);
    let empty = Seq::<char>::empty();
    assert(empty =~= ""@);
    slash_separates_components(dir, name);
    piece_is_a_component_by_itself(name);
    slash_separates_components(dir, empty);
    piece_is_a_component_by_itself(empty);
    assert(dir + "/"@ + empty =~= dir + "/"@);
    assert(components(dir) + Seq::<Seq<char>>::empty() =~= components(dir));
    slash_separates_components(dir, step_back());
    piece_is_a_component_by_itself(step_back());
    assert(dir + "/"@ + step_back() =~= dir + "/.."@);
    assert(components(dir + "/.."@).last() == step_back());
}

/// A name is any text but the empty one, `.` and `..` that holds no slash and no backslash.
pub proof fn name_is_a_text_without_slashes(text: Seq<char>)
    ensures
        is_name(text) <==> text.len() > 0 && text != "."@ && text != ".."@ && !text.contains('/')
            && !text.contains('\\'),
{
    reveal_strlit("");
    reveal_strlit(".");
    reveal_strlit("..");
    assert(text.len() == 0 ==> text =~= ""@);
    assert("."@ =~= seq!['.']);
    assert(".."@ =~= seq!['.', '.']);
    assert(lacks(text, '/') == !text.contains('/'));
    assert(lacks(text, '\\') == !text.contains('\\'));
    if text.len() == 2 && text[0] == '.' && text[1] == '.' {
        assert(text =~= seq!['.', '.']);
    }
    if text.len() == 1 && text[0] == '.' {
        assert(text =~= seq!['.']);
    }
}

/// A relative reference is walked from the directory of its document: along all components of
/// the document's path but the last, and on along those of the reference, with `..` wherever
/// it stands. What the walk ends at is the path, and a walk that leaves the root names
/// nothing.
pub proof fn reference_is_walked_from_its_directory(
    base: Seq<char>,
    href: Seq<char>,
    dir: Seq<Seq<char>>,
    doc: Seq<char>,
)
    requires
        components(slashed(base)) == dir.push(doc),
        base[0] != '/' && base[0] != '\\',
        href.len() > 0 ==> href[0] != '/' && href[0] != '\\',
        !starts_with(slashed(href), "./"@),
    ensures
        resolved(base, href) == (match walked(dir + components(slashed(href))) {
            Some(place) => Some(joined(place)),
            None => None,
        }),
{
    reveal_strlit("./");
    assert("./"@ =~= seq!['.', '/']);
    assert(dir.push(doc).drop_last() =~= dir);
}

/// A document whose path has no components, such as the empty one, lies at the root.
pub proof fn empty_document_lies_at_the_root(base: Seq<char>, href: Seq<char>)
    requires
        components(slashed(base)).len() == 0,
        href.len() > 0 ==> href[0] != '/' && href[0] != '\\',
        !starts_with(slashed(href), "./"@),
    ensures
        resolved(base, href) == (match walked(components(slashed(href))) {
            Some(place) => Some(joined(place)),
            None => None,
        }),
{
    reveal_strlit("./");
    assert("./"@ =~= seq!['.', '/']);
    let none = components(slashed(base));
    assert(none + components(slashed(href)) =~= components(slashed(href)));
}

/// A document with an absolute path, however long, refers to nothing in the archive.
pub proof fn absolute_document_refers_to_nothing(base: Seq<char>, href: Seq<char>)
    requires
        base.len() > 0,
        base[0] == '/' || base[0] == '\\',
        components(slashed(base)).len() > 0,
    ensures
        resolved(base, href) is None,
{
}

/// An absolute reference names nothing, with leading `./` pairs or without.
pub proof fn absolute_reference_names_nothing(base: Seq<char>, href: Seq<char>)
    requires
        href.len() > 0,
        href[0] == '/' || href[0] == '\\',
    ensures
        resolved(base, href) is None,
        resolved(base, "./"@ + href) is None,
{
    spelling_does_not_count(base, href);
    let link = slashed(href);
    if starts_with(link, seq!['.', '/']) {
        assert(link.subrange(0, 2)[0] == '.');
    }
}

/// The path that is resolved from a document in a directory, one step up, is the rest of the
/// reference beside that directory.
pub proof fn step_up_leads_beside_the_directory(
    base: &str,
    href: &str,
    r: Option<String>,
    dir: Seq<Seq<char>>,
    last: Seq<char>,
    doc: Seq<char>,
    parts: Seq<Seq<char>>,
)
    requires
        call_ensures(resolve_uri, (base, href), r),
        all_names(dir),
        is_name(last),
        is_name(doc),
        all_names(parts),
        base@ == joined(dir.push(last).push(doc)),
        href@ == climbing(1, parts),
    ensures
        r matches Some(path) && path@ == joined(dir + parts),
{
    let below = seq![last];
    assert forall|i: int| 0 <= i < below.len() implies is_name(#[trigger] below[i]) by {}
    assert((dir + below).push(doc) =~= dir.push(last).push(doc));
    reference_is_read_beside_its_document(dir, below, doc, parts);
}

/// The name of a path is its last component, whatever comes before, unless that is `..`; a
/// path without components has none.
pub proof fn base_name_is_the_last_component(path: Seq<char>)
    ensures
        components(path).len() == 0 ==> base_name(path) is None,
        components(path).len() > 0 ==> base_name(path) == (if components(
            path,
        )[components(path).len() - 1] == ".."@ {
            None
        } else {
            Some(components(path)[components(path).len() - 1])
        }),
{
    reveal_strlit("..");
    assert(".."@ =~= seq!['.', '.']);
}

} // verus!
