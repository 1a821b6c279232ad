//! The choice of the clip polygon among the geometries of a GeoJSON document.
use vstd::prelude::*;

verus! {

/// The geometries of a GeoJSON document, each one as the polygon that it is, where it is
/// one.
pub enum GeoDocument<P> {
    Collection { features: Vec<Option<P>> },
    Feature { geometry: Option<P> },
    Geometry { geometry: Option<P> },
}

/// The first that is there.
pub open spec fn first_present<P>(slots: Seq<Option<P>>) -> Option<P>
    decreases slots.len(),
{
    if slots.len() == 0 {
        None
    } else if slots[0] is Some {
        slots[0]
    } else {
        first_present(slots.drop_first())
    }
}

/// The clip polygon: of a collection the first, else the one that there is.
pub open spec fn chosen<P>(document: GeoDocument<P>) -> Option<P> {
    match document {
        GeoDocument::Collection { features } => first_present(features@),
        GeoDocument::Feature { geometry } => geometry,
        GeoDocument::Geometry { geometry } => geometry,
    }
}

/// Choose the clip polygon.
pub fn choose_polygon<P>(document: GeoDocument<P>) -> (r: Option<P>)
    ensures
        r == chosen(document),
{
    match document {
        GeoDocument::Collection { features } => {
            let mut rest = features;
            let mut i: usize = 0;
            assert(features@.skip(0) =~= features@);
            while i < rest.len()
                invariant
                    i <= rest@.len(),
                    rest@ == features@,
                    chosen(document) == first_present(features@),
                    first_present(features@) == first_present(features@.skip(i as int)),
                decreases rest@.len() - i,
            {
                assert(features@.skip(i as int).drop_first() =~= features@.skip(i + 1));
                if rest[i].is_some() {
                    let mut found: Option<P> = None;
                    std::mem::swap(&mut found, &mut rest[i]);
                    return found;
                }
                i += 1;
            }
            None
        },
        GeoDocument::Feature { geometry } => geometry,
        GeoDocument::Geometry { geometry } => geometry,
    }
}

/// The first polygon of a collection is chosen, whatever stands behind it and however many
/// features without a polygon come before.
pub proof fn first_polygon_is_chosen<P>(document: GeoDocument<P>, i: int)
    requires
        document matches GeoDocument::Collection { features } && 0 <= i < features@.len()
            && features@[i] is Some && forall|j: int|
            0 <= j < i ==> #[trigger] features@[j] is None,
    ensures
        chosen(document) == document->features@[i],
{
    lemma_first_present(document->features@, i);
}

proof fn lemma_first_present<P>(slots: Seq<Option<P>>, i: int)
    requires
        0 <= i < slots.len(),
        slots[i] is Some,
        forall|j: int| 0 <= j < i ==> #[trigger] slots[j] is None,
    ensures
        first_present(slots) == slots[i],
    decreases i,
{
    if i > 0 {
        let rest = slots.drop_first();
        assert(slots[0] is None);
        assert forall|j: int| 0 <= j < i - 1 implies #[trigger] rest[j] is None by {
            assert(rest[j] == slots[j + 1]);
        }
        lemma_first_present(rest, i - 1);
    }
}

/// Nothing is chosen of a collection without a polygon; of a feature or a bare geometry its
/// own polygon is, where it is one.
pub proof fn nothing_is_chosen_without_a_polygon<P>(document: GeoDocument<P>)
    ensures
        match document {
            GeoDocument::Collection { features } => (forall|j: int|
                0 <= j < features@.len() ==> #[trigger] features@[j] is None) ==> chosen(
                document,
            ) is None,
            GeoDocument::Feature { geometry } => chosen(document) == geometry,
            GeoDocument::Geometry { geometry } => chosen(document) == geometry,
        },
{
    if let GeoDocument::Collection { features } = document {
        if forall|j: int| 0 <= j < features@.len() ==> #[trigger] features@[j] is None {
            lemma_none_present(features@);
        }
    }
}

proof fn lemma_none_present<P>(slots: Seq<Option<P>>)
    requires
        forall|j: int| 0 <= j < slots.len() ==> #[trigger] slots[j] is None,
    ensures
        first_present(slots) is None,
    decreases slots.len(),
{
    if slots.len() > 0 {
        let rest = slots.drop_first();
        assert(slots[0] is None);
        assert forall|j: int| 0 <= j < rest.len() implies #[trigger] rest[j] is None by {
            assert(rest[j] == slots[j + 1]);
        }
        lemma_none_present(rest);
    }
}

} // verus!
