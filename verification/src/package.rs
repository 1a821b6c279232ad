//! Package tilesets: a bare `tileset.json` whose children each link to an archive of their
//! own. Every archive is clipped by itself; the package then drops the children that did
//! not survive and takes over the regions that shrank.
use vstd::hash_set::StringHashSet;
use vstd::prelude::*;
use vstd::string::*;

use crate::archive::{format_of, ArchiveFormat};
use crate::json::{
    array_model, json_models, object_model, put_member_is_read_back, replaced_member,
    replacing_keeps_every_place, Json, JsonModel, JsonNumber, MemberModel, NumberModel,
};
use crate::text::{
    chars_of, decimal, decimal_of, part, prefix_is_what_comes_first, starts_with, string_of,
};
use crate::tileset::{
    content_link, judges, link_of, slot_models, slots_from, slots_of, then_get, tile_intersects,
    tile_stays, verdict_of, Extent, ExtentModel,
};
use crate::uri::{
    all_names, components, is_absolute, resolve_uri, resolved, resolved_stays_inside,
};

verus! {

/// The position behind the last slash, or the start where there is none.
pub open spec fn name_start(key: Seq<char>) -> int
    decreases key.len(),
{
    if key.len() == 0 {
        0
    } else if key.last() == '/' {
        key.len() as int
    } else {
        name_start(key.drop_last())
    }
}

/// The directory of the package, with its slash, and the name of the package in it.
pub fn split_key(package_key: &str) -> (r: (String, String))
    ensures
        r.0@ == package_key@.take(name_start(package_key@)),
        r.1@ == package_key@.skip(name_start(package_key@)),
{
    let chars = chars_of(package_key);
    let mut i: usize = chars.len();
    assert(chars@.take(i as int) =~= chars@);
    while i > 0 && chars[i - 1] != '/'
        invariant
            i <= chars@.len(),
            chars@ == package_key@,
            name_start(chars@) == name_start(chars@.take(i as int)),
        decreases i,
    {
        assert(chars@.take(i as int).drop_last() =~= chars@.take(i - 1));
        assert(chars@.take(i as int).last() == chars@[i - 1]);
        i -= 1;
    }
    proof {
        if i > 0 {
            assert(chars@.take(i as int).last() == chars@[i - 1]);
        }
    }
    let prefix = part(chars.as_slice(), 0, i);
    let name = part(chars.as_slice(), i, chars.len());
    assert(prefix@ =~= package_key@.take(i as int));
    assert(name@ =~= package_key@.skip(i as int));
    (string_of(prefix.as_slice()), string_of(name.as_slice()))
}

/// Where the archive of a child lies: beside the package.
pub fn archive_key(base_prefix: &str, uri: &str) -> (key: String)
    ensures
        key@ == base_prefix@ + uri@,
{
    let mut key = base_prefix.to_owned();
    key.append(uri);
    key
}

/// The children of the package's root.
pub open spec fn children_of(package: JsonModel) -> Option<Seq<JsonModel>> {
    match then_get(package.get("root"@), "children"@) {
        Some(children) => children.as_items(),
        None => None,
    }
}

/// The children of the package's root, or what to say where there are none to follow.
pub fn package_children(package: &Json) -> (r: Result<&Vec<Json>, String>)
    ensures
        match r {
            Ok(children) => children_of(package@) == Some(json_models(children@)),
            Err(message) => children_of(package@) is None && message@
                == "Package tileset has no root.children to follow"@,
        },
{
    if let Some(root) = package.get("root") {
        if let Some(children) = root.get("children") {
            if let Some(items) = children.as_items() {
                return Ok(items);
            }
        }
    }
    Err("Package tileset has no root.children to follow".to_owned())
}

/// A child whose archive is clipped.
pub struct PackageChild {
    pub index: usize,
    /// The resolved path of its archive, inside the package's own directory.
    pub uri: String,
    /// The components of its `boundingVolume.region`, where it has one. A component that is
    /// no number keeps its place.
    pub region: Option<Vec<Option<JsonNumber>>>,
}

/// What is done about a child of the package.
pub enum ChildDecision {
    /// It links to nothing, and stays as it is.
    NoContent,
    /// It links to something else than an archive, and stays as it is.
    NotArchive { uri: String },
    /// Its link leaves the package's directory: it is dropped.
    Escapes { uri: String },
    /// It does not meet the clip polygon: it is dropped.
    Misses { uri: String },
    /// An earlier child links to the same archive: it is dropped.
    Duplicate { uri: String },
    /// Its archive is clipped.
    Clip { child: PackageChild },
}

/// What a `ChildDecision` says.
pub enum DecisionModel {
    NoContent,
    NotArchive { uri: Seq<char> },
    Escapes { uri: Seq<char> },
    Misses { uri: Seq<char> },
    Duplicate { uri: Seq<char> },
    Clip { index: int, uri: Seq<char>, region: Option<Seq<Option<NumberModel>>> },
}

/// What the components of a region say.
pub open spec fn region_model(region: Option<Vec<Option<JsonNumber>>>) -> Option<
    Seq<Option<NumberModel>>,
> {
    match region {
        Some(slots) => Some(slot_models(slots@)),
        None => None,
    }
}

impl View for ChildDecision {
    type V = DecisionModel;

    open spec fn view(&self) -> DecisionModel {
        match *self {
            ChildDecision::NoContent => DecisionModel::NoContent,
            ChildDecision::NotArchive { uri } => DecisionModel::NotArchive { uri: uri@ },
            ChildDecision::Escapes { uri } => DecisionModel::Escapes { uri: uri@ },
            ChildDecision::Misses { uri } => DecisionModel::Misses { uri: uri@ },
            ChildDecision::Duplicate { uri } => DecisionModel::Duplicate { uri: uri@ },
            ChildDecision::Clip { child } => DecisionModel::Clip {
                index: child.index as int,
                uri: child.uri@,
                region: region_model(child.region),
            },
        }
    }
}

/// What the decisions say.
pub open spec fn decision_models(decisions: Seq<ChildDecision>) -> Seq<DecisionModel> {
    decisions.map_values(|decision: ChildDecision| decision@)
}

/// What a child links to.
pub open spec fn child_link(child: JsonModel) -> Option<Seq<char>> {
    match child.get("content"@) {
        Some(content) => link_of(content),
        None => None,
    }
}

/// The components of a child's region.
pub open spec fn child_region(child: JsonModel) -> Option<Seq<Option<NumberModel>>> {
    match then_get(child.get("boundingVolume"@), "region"@) {
        Some(region) => match region.as_items() {
            Some(items) => Some(slots_of(items)),
            None => None,
        },
        None => None,
    }
}

/// What is done about the child at position `index`, where the archives in `seen` are
/// linked to by earlier children.
pub open spec fn decision_of(
    child: JsonModel,
    index: int,
    seen: Set<Seq<char>>,
    verdict: spec_fn(ExtentModel) -> bool,
) -> DecisionModel {
    match child_link(child) {
        None => DecisionModel::NoContent,
        Some(link) => if format_of(link) is None {
            DecisionModel::NotArchive { uri: link }
        } else {
            match resolved(Seq::empty(), link) {
                None => DecisionModel::Escapes { uri: link },
                Some(uri) => if !tile_stays(child, verdict) {
                    DecisionModel::Misses { uri }
                } else if seen.contains(uri) {
                    DecisionModel::Duplicate { uri }
                } else {
                    DecisionModel::Clip { index, uri, region: child_region(child) }
                },
            }
        },
    }
}

/// The archives that are clipped.
pub open spec fn clipped_archives(decisions: Seq<DecisionModel>) -> Set<Seq<char>>
    decreases decisions.len(),
{
    if decisions.len() == 0 {
        Set::empty()
    } else {
        match decisions.last() {
            DecisionModel::Clip { uri, .. } => clipped_archives(decisions.drop_last()).insert(uri),
            _ => clipped_archives(decisions.drop_last()),
        }
    }
}

/// What is done about the children, one after the other.
pub open spec fn decided(
    children: Seq<JsonModel>,
    verdict: spec_fn(ExtentModel) -> bool,
) -> Seq<DecisionModel>
    decreases children.len(),
{
    if children.len() == 0 {
        Seq::empty()
    } else {
        let before = decided(children.drop_last(), verdict);
        before.push(
            decision_of(
                children.last(),
                children.len() - 1,
                clipped_archives(before),
                verdict,
            ),
        )
    }
}

/// The components of a child's region.
fn read_region(child: &Json) -> (r: Option<Vec<Option<JsonNumber>>>)
    ensures
        region_model(r) == child_region(child@),
{
    if let Some(volume) = child.get("boundingVolume") {
        if let Some(region) = volume.get("region") {
            if let Some(items) = region.as_items() {
                return Some(slots_from(items));
            }
        }
    }
    None
}

/// Decide about one child.
fn decide_child<F: Fn(&Extent) -> bool>(
    child: &Json,
    index: usize,
    seen: &StringHashSet,
    meets: &F,
) -> (r: ChildDecision)
    requires
        judges(*meets),
    ensures
        r@ == decision_of(child@, index as int, seen@, verdict_of(*meets)),
{
    let content = match child.get("content") {
        Some(content) => content,
        None => {
            return ChildDecision::NoContent;
        },
    };
    let link = match content_link(content) {
        Some(link) => link,
        None => {
            return ChildDecision::NoContent;
        },
    };
    if ArchiveFormat::of_key(link.as_str()).is_none() {
        return ChildDecision::NotArchive { uri: link.clone() };
    }
    proof {
        reveal_strlit("");
        assert(""@ =~= Seq::<char>::empty());
    }
    let uri = match resolve_uri("", link.as_str()) {
        Some(uri) => uri,
        None => {
            return ChildDecision::Escapes { uri: link.clone() };
        },
    };
    if !tile_intersects(child, meets) {
        return ChildDecision::Misses { uri };
    }
    if seen.contains(uri.as_str()) {
        return ChildDecision::Duplicate { uri };
    }
    let region = read_region(child);
    ChildDecision::Clip { child: PackageChild { index, uri, region } }
}

/// Decide about every child of the package.
pub fn decide_children<F: Fn(&Extent) -> bool>(children: &Vec<Json>, meets: &F) -> (r: Vec<
    ChildDecision,
>)
    requires
        judges(*meets),
    ensures
        decision_models(r@) == decided(json_models(children@), verdict_of(*meets)),
{
    let ghost models = json_models(children@);
    let ghost verdict = verdict_of(*meets);
    let mut r: Vec<ChildDecision> = Vec::new();
    let mut seen = StringHashSet::new();
    let mut i: usize = 0;
    assert(decision_models(r@) =~= decided(models.take(0), verdict));
    while i < children.len()
        invariant
            i <= children@.len(),
            judges(*meets),
            models == json_models(children@),
            verdict == verdict_of(*meets),
            decision_models(r@) == decided(models.take(i as int), verdict),
            seen@ == clipped_archives(decision_models(r@)),
        decreases children@.len() - i,
    {
        let ghost before = r@;
        let decision = decide_child(&children[i], i, &seen, meets);
        proof {
            let upto = models.take(i + 1);
            assert(upto.drop_last() =~= models.take(i as int));
            assert(upto.last() == children@[i as int]@);
        }
        if let ChildDecision::Clip { child } = &decision {
            seen.insert(child.uri.clone());
        }
        r.push(decision);
        proof {
            let now = decision_models(r@);
            assert(now =~= decision_models(before).push(decision@));
            assert(now.drop_last() =~= decision_models(before));
        }
        i += 1;
    }
    assert(models.take(i as int) =~= models);
    r
}

/// What became of a child of the package.
pub enum ChildResult {
    /// It was left alone.
    Untouched,
    /// It is dropped.
    Dropped,
    /// Its archive was clipped, and its region shrank to the given one where it could.
    Kept { region: Option<Json> },
}

/// What a `ChildResult` says.
pub enum ResultModel {
    Untouched,
    Dropped,
    Kept { region: Option<JsonModel> },
}

impl View for ChildResult {
    type V = ResultModel;

    open spec fn view(&self) -> ResultModel {
        match *self {
            ChildResult::Untouched => ResultModel::Untouched,
            ChildResult::Dropped => ResultModel::Dropped,
            ChildResult::Kept { region: Some(region) } => ResultModel::Kept {
                region: Some(region@),
            },
            ChildResult::Kept { region: None } => ResultModel::Kept { region: None },
        }
    }
}

/// What the results say.
pub open spec fn result_models(results: Seq<ChildResult>) -> Seq<ResultModel> {
    results.map_values(|result: ChildResult| result@)
}

/// What becomes of a child as long as its archive was not clipped: it is left alone where
/// no archive of its own was meant, and dropped otherwise.
pub open spec fn result_before(decision: DecisionModel) -> ResultModel {
    match decision {
        DecisionModel::NoContent => ResultModel::Untouched,
        DecisionModel::NotArchive { uri } => ResultModel::Untouched,
        _ => ResultModel::Dropped,
    }
}

/// The results before any archive was clipped.
pub open spec fn results_before(decisions: Seq<DecisionModel>) -> Seq<ResultModel> {
    decisions.map_values(|decision: DecisionModel| result_before(decision))
}

/// How many children are kept, with a new region or without, as `with_region` says.
pub open spec fn kept_count(results: Seq<ResultModel>, with_region: bool) -> nat
    decreases results.len(),
{
    if results.len() == 0 {
        0
    } else {
        kept_count(results.drop_last(), with_region) + match results.last() {
            ResultModel::Kept { region } => if region is Some == with_region {
                1nat
            } else {
                0nat
            },
            _ => 0nat,
        }
    }
}

/// What is done about the region of the package's root.
#[derive(Clone, Copy, Debug, PartialEq, Eq, Structural)]
pub enum RootRegion {
    /// Nothing was kept; the root stays as it is.
    NothingKept,
    /// As many kept children have no region to contribute; the root stays as it is, since
    /// the union of the others could understate its extent.
    Unknown { without_region: usize },
    /// It becomes the union of the new regions.
    Union,
}

/// What is done about the region of the package's root.
pub open spec fn root_region_of(results: Seq<ResultModel>) -> RootRegion {
    let without = kept_count(results, false);
    if without + kept_count(results, true) == 0 {
        RootRegion::NothingKept
    } else if without > 0 {
        RootRegion::Unknown { without_region: without as usize }
    } else {
        RootRegion::Union
    }
}

/// The run over the archives of a package.
pub struct PackageRun {
    pub results: Vec<ChildResult>,
    /// How many archives could not be clipped.
    pub failures: usize,
}

impl PackageRun {
    /// Start with what was decided.
    pub fn new(decisions: &Vec<ChildDecision>) -> (run: PackageRun)
        ensures
            result_models(run.results@) == results_before(decision_models(decisions@)),
            run.failures == 0,
    {
        let mut results: Vec<ChildResult> = Vec::new();
        let mut i: usize = 0;
        while i < decisions.len()
            invariant
                i <= decisions@.len(),
                result_models(results@) =~= results_before(decision_models(decisions@)).take(
                    i as int,
                ),
            decreases decisions@.len() - i,
        {
            let ghost before = results@;
            let result = match &decisions[i] {
                ChildDecision::NoContent => ChildResult::Untouched,
                ChildDecision::NotArchive { .. } => ChildResult::Untouched,
                _ => ChildResult::Dropped,
            };
            results.push(result);
            proof {
                assert(decision_models(decisions@)[i as int] == decisions@[i as int]@);
                assert(result_models(results@) =~= result_models(before).push(result@));
            }
            i += 1;
        }
        PackageRun { results, failures: 0 }
    }

    /// The archive of the child at position `index` was clipped.
    pub fn clipped(&mut self, index: usize, region: Option<Json>)
        requires
            index < old(self).results@.len(),
        ensures
            result_models(final(self).results@) == result_models(old(self).results@).update(
                index as int,
                ResultModel::Kept {
                    region: match region {
                        Some(region) => Some(region@),
                        None => None,
                    },
                },
            ),
            final(self).failures == old(self).failures,
    {
        let result = ChildResult::Kept { region };
        self.results[index] = result;
        assert(result_models(self.results@) =~= result_models(old(self).results@).update(
            index as int,
            result@,
        ));
    }

    /// The archive of a child could not be clipped.
    pub fn failed(&mut self)
        requires
            old(self).failures < usize::MAX,
        ensures
            final(self).failures == old(self).failures + 1,
            final(self).results@ == old(self).results@,
    {
        self.failures += 1;
    }

    /// How many children are kept, with a new region or without.
    pub fn count_kept(&self, with_region: bool) -> (n: usize)
        ensures
            n == kept_count(result_models(self.results@), with_region),
            n <= self.results@.len(),
    {
        let ghost models = result_models(self.results@);
        let mut n: usize = 0;
        let mut i: usize = 0;
        while i < self.results.len()
            invariant
                i <= self.results@.len(),
                models == result_models(self.results@),
                n <= i,
                n == kept_count(models.take(i as int), with_region),
            decreases self.results@.len() - i,
        {
            proof {
                let upto = models.take(i + 1);
                assert(upto.drop_last() =~= models.take(i as int));
                assert(upto.last() == self.results@[i as int]@);
            }
            if let ChildResult::Kept { region } = &self.results[i] {
                if region.is_some() == with_region {
                    n += 1;
                }
            }
            i += 1;
        }
        assert(models.take(i as int) =~= models);
        n
    }

    /// What is done about the region of the package's root.
    pub fn root_region(&self) -> (r: RootRegion)
        ensures
            r == root_region_of(result_models(self.results@)),
    {
        let without: usize = self.count_kept(false);
        let with: usize = self.count_kept(true);
        if without == 0 && with == 0 {
            RootRegion::NothingKept
        } else if without > 0 {
            RootRegion::Unknown { without_region: without }
        } else {
            RootRegion::Union
        }
    }

    /// What to say at the end where archives could not be clipped.
    pub fn failure_message(&self) -> (r: Option<String>)
        requires
            self.failures + kept_count(result_models(self.results@), true) + kept_count(
                result_models(self.results@),
                false,
            ) <= u64::MAX,
        ensures
            match r {
                Some(message) => self.failures > 0 && message@ == decimal(self.failures as nat)
                    + " of "@ + decimal(
                    self.failures as nat + kept_count(result_models(self.results@), true)
                        + kept_count(result_models(self.results@), false),
                ) + " package archive(s) failed to clip"@,
                None => self.failures == 0,
            },
    {
        if self.failures == 0 {
            return None;
        }
        let all: u64 = self.failures as u64 + self.count_kept(true) as u64 + self.count_kept(
            false,
        ) as u64;
        let mut message = decimal_of(self.failures as u64);
        message.append(" of ");
        message.append(decimal_of(all).as_str());
        message.append(" package archive(s) failed to clip");
        Some(message)
    }
}

/// A region can be put into the bounding volume of the tile, where it has one.
pub open spec fn takes_region(tile: JsonModel) -> bool {
    tile.get("boundingVolume"@) matches Some(volume) ==> volume.takes_members()
}

/// The tile with the region put into its bounding volume, where it has one.
pub open spec fn with_region(tile: JsonModel, region: JsonModel) -> JsonModel {
    match tile.get("boundingVolume"@) {
        Some(volume) => tile.with("boundingVolume"@, volume.set("region"@, region)),
        None => tile,
    }
}

/// Put the region into the bounding volume of the tile.
fn set_region(tile: Json, region: Json) -> (r: Json)
    requires
        takes_region(tile@),
    ensures
        r@ == with_region(tile@, region@),
{
    let (rest, volume) = tile.take("boundingVolume");
    match volume {
        Some(volume) => {
            let volume = volume.set("region", region);
            let ghost changed = volume@;
            let r = rest.set("boundingVolume", volume);
            assert(rest@.with("boundingVolume"@, changed) == tile@.with(
                "boundingVolume"@,
                changed,
            ));
            r
        },
        None => rest,
    }
}

/// Whether a region can be put into the bounding volume of the tile.
pub fn can_take_region(tile: &Json) -> (r: bool)
    ensures
        r == takes_region(tile@),
{
    match tile.get("boundingVolume") {
        Some(volume) => volume.can_take_members(),
        None => true,
    }
}

/// Every new region has its place.
pub open spec fn regions_fit(children: Seq<JsonModel>, results: Seq<ResultModel>) -> bool {
    forall|i: int|
        0 <= i < children.len() && i < results.len() && (#[trigger] results[i] matches ResultModel::Kept {
            region: Some(region),
        }) ==> takes_region(children[i])
}

/// The children that stay, in order, with their new regions.
pub open spec fn retained(children: Seq<JsonModel>, results: Seq<ResultModel>) -> Seq<JsonModel>
    decreases children.len(),
{
    if children.len() == 0 || children.len() != results.len() {
        Seq::empty()
    } else {
        let before = retained(children.drop_last(), results.drop_last());
        match results.last() {
            ResultModel::Untouched => before.push(children.last()),
            ResultModel::Dropped => before,
            ResultModel::Kept { region: Some(region) } => before.push(
                with_region(children.last(), region),
            ),
            ResultModel::Kept { region: None } => before.push(children.last()),
        }
    }
}

/// The children that stay.
fn retain_children(children: Vec<Json>, results: Vec<ChildResult>) -> (r: Vec<Json>)
    requires
        children@.len() == results@.len(),
        regions_fit(json_models(children@), result_models(results@)),
    ensures
        json_models(r@) == retained(json_models(children@), result_models(results@)),
{
    let ghost models = json_models(children@);
    let ghost outcomes = result_models(results@);
    let mut rest = children;
    let mut left = results;
    let mut r: Vec<Json> = Vec::new();
    let mut i: usize = 0;
    assert(json_models(r@) =~= retained(models.take(0), outcomes.take(0)));
    while i < rest.len()
        invariant
            i <= rest@.len(),
            rest@.len() == children@.len(),
            left@.len() == results@.len(),
            children@.len() == results@.len(),
            models == json_models(children@),
            outcomes == result_models(results@),
            regions_fit(models, outcomes),
            forall|j: int| i <= j < children@.len() ==> rest@[j] == children@[j],
            forall|j: int| i <= j < results@.len() ==> left@[j] == results@[j],
            json_models(r@) == retained(models.take(i as int), outcomes.take(i as int)),
        decreases rest@.len() - i,
    {
        let mut child = Json::Null;
        std::mem::swap(&mut child, &mut rest[i]);
        let mut result = ChildResult::Dropped;
        std::mem::swap(&mut result, &mut left[i]);
        proof {
            assert(models.take(i + 1).drop_last() =~= models.take(i as int));
            assert(outcomes.take(i + 1).drop_last() =~= outcomes.take(i as int));
            assert(models.take(i + 1).last() == child@);
            assert(models[i as int] == child@);
            assert(outcomes.take(i + 1).last() == result@);
            assert(outcomes[i as int] == result@);
        }
        let ghost before = r@;
        match result {
            ChildResult::Dropped => {},
            ChildResult::Kept { region: Some(region) } => {
                let child = set_region(child, region);
                r.push(child);
                assert(json_models(r@) =~= json_models(before).push(child@));
            },
            _ => {
                r.push(child);
                assert(json_models(r@) =~= json_models(before).push(child@));
            },
        }
        i += 1;
    }
    assert(models.take(i as int) =~= models);
    assert(outcomes.take(i as int) =~= outcomes);
    r
}

/// The package with the children that stay and, where it is given, the new region of its
/// root.
pub open spec fn rewritten(
    package: JsonModel,
    results: Seq<ResultModel>,
    root_region: Option<JsonModel>,
) -> JsonModel {
    match (package.get("root"@), children_of(package)) {
        (Some(root), Some(children)) => {
            let pruned = root.with(
                "children"@,
                JsonModel::Array { items: retained(children, results) },
            );
            package.with(
                "root"@,
                match root_region {
                    Some(region) => with_region(pruned, region),
                    None => pruned,
                },
            )
        },
        _ => package,
    }
}

/// Rewrite the package after its archives were clipped.
pub fn rewrite_package(
    package: Json,
    results: Vec<ChildResult>,
    root_region: Option<Json>,
) -> (r: Json)
    requires
        children_of(package@) matches Some(children) && children.len() == results@.len()
            && regions_fit(children, result_models(results@)),
        root_region is Some ==> takes_region(package@.get("root"@)->0),
    ensures
        r@ == rewritten(
            package@,
            result_models(results@),
            match root_region {
                Some(region) => Some(region@),
                None => None,
            },
        ),
{
    broadcast use {array_model, object_model};

    let (outer, root) = package.take("root");
    let root = match root {
        Some(root) => root,
        None => {
            return outer;
        },
    };
    let ghost whole = root@;
    let (inner, children) = root.take("children");
    let items = match children {
        Some(Json::Array { items }) => items,
        _ => {
            return outer;
        },
    };
    let kept = retain_children(items, results);
    let kept = Json::Array { items: kept };
    let ghost models = kept@;
    let root = inner.set("children", kept);
    proof {
        assert(inner@.with("children"@, models) == whole.with("children"@, models));
        reveal_strlit("children");
        reveal_strlit("boundingVolume");
        assert("children"@.len() != "boundingVolume"@.len());
        replaced_member(whole, "children"@, models, "boundingVolume"@);
    }
    let root = match root_region {
        Some(region) => set_region(root, region),
        None => root,
    };
    let ghost finished = root@;
    let r = outer.set("root", root);
    assert(outer@.with("root"@, finished) == package@.with("root"@, finished));
    r
}

/// The directory and the name make up the key of the package.
pub proof fn split_key_is_whole(key: Seq<char>)
    ensures
        0 <= name_start(key) <= key.len(),
        key.take(name_start(key)) + key.skip(name_start(key)) == key,
    decreases key.len(),
{
    if key.len() > 0 && key.last() != '/' {
        split_key_is_whole(key.drop_last());
    }
    assert(key.take(name_start(key)) + key.skip(name_start(key)) =~= key);
}

/// There is one decision for each child.
pub proof fn every_child_is_decided(
    children: Seq<JsonModel>,
    verdict: spec_fn(ExtentModel) -> bool,
)
    ensures
        decided(children, verdict).len() == children.len(),
    decreases children.len(),
{
    if children.len() > 0 {
        every_child_is_decided(children.drop_last(), verdict);
    }
}

/// The archives that are clipped are those of the decisions to clip.
proof fn lemma_clipped_archives(decisions: Seq<DecisionModel>, i: int)
    requires
        0 <= i < decisions.len(),
        decisions[i] is Clip,
    ensures
        clipped_archives(decisions).contains(decisions[i]->Clip_uri),
    decreases decisions.len(),
{
    if i < decisions.len() - 1 {
        lemma_clipped_archives(decisions.drop_last(), i);
    }
}

/// The archive of every child that is clipped is what the child links to, an archive, and
/// lies inside the package's own directory; and the child meets the clip polygon.
pub proof fn clipped_children_are_sound(
    children: Seq<JsonModel>,
    verdict: spec_fn(ExtentModel) -> bool,
    i: int,
)
    requires
        0 <= i < children.len(),
        decided(children, verdict)[i] is Clip,
    ensures
        ({
            let decision = decided(children, verdict)[i];
            &&& decision->Clip_index == i
            &&& child_link(children[i]) matches Some(link) && format_of(link) is Some && resolved(
                Seq::empty(),
                link,
            ) == Some(decision->Clip_uri)
            &&& tile_stays(children[i], verdict)
            &&& !is_absolute(decision->Clip_uri)
            &&& all_names(components(decision->Clip_uri))
        }),
    decreases children.len(),
{
    every_child_is_decided(children.drop_last(), verdict);
    if i < children.len() - 1 {
        clipped_children_are_sound(children.drop_last(), verdict, i);
    } else if let Some(link) = child_link(children[i]) {
        resolved_stays_inside(Seq::empty(), link);
    }
}

/// No archive is clipped twice, whatever the package links to how often: no two runs write
/// to one place.
pub proof fn no_archive_is_clipped_twice(
    children: Seq<JsonModel>,
    verdict: spec_fn(ExtentModel) -> bool,
    i: int,
    j: int,
)
    requires
        0 <= i < j < children.len(),
        decided(children, verdict)[i] is Clip,
        decided(children, verdict)[j] is Clip,
    ensures
        decided(children, verdict)[i]->Clip_uri != decided(children, verdict)[j]->Clip_uri,
    decreases children.len(),
{
    let before = decided(children.drop_last(), verdict);
    every_child_is_decided(children.drop_last(), verdict);
    if j < children.len() - 1 {
        no_archive_is_clipped_twice(children.drop_last(), verdict, i, j);
    } else {
        lemma_clipped_archives(before, i);
    }
}

/// A child is left exactly as it was where no archive of its own was meant.
pub proof fn untouched_children_stay(
    children: Seq<JsonModel>,
    results: Seq<ResultModel>,
    i: int,
)
    requires
        children.len() == results.len(),
        0 <= i < children.len(),
        results[i] is Untouched,
    ensures
        retained(children, results).contains(children[i]),
    decreases children.len(),
{
    let all = retained(children, results);
    if i == children.len() - 1 {
        assert(all[all.len() - 1] == children[i]);
    } else {
        untouched_children_stay(children.drop_last(), results.drop_last(), i);
        let some = retained(children.drop_last(), results.drop_last());
        let k = choose|k: int| 0 <= k < some.len() && some[k] == children[i];
        assert(all[k] == children[i]);
    }
}

/// Where no child is dropped and none has a new region, the children stay as they are.
pub proof fn nothing_changes_without_cause(children: Seq<JsonModel>, results: Seq<ResultModel>)
    requires
        children.len() == results.len(),
        forall|i: int|
            0 <= i < results.len() ==> #[trigger] results[i] is Untouched || results[i]
                == (ResultModel::Kept { region: None }),
    ensures
        retained(children, results) == children,
    decreases children.len(),
{
    if children.len() > 0 {
        let before = results.drop_last();
        assert forall|i: int| 0 <= i < before.len() implies #[trigger] before[i] is Untouched
            || before[i] == (ResultModel::Kept { region: None }) by {
            assert(before[i] == results[i]);
        }
        nothing_changes_without_cause(children.drop_last(), before);
        assert(results.last() == results[results.len() - 1]);
        assert(children.drop_last().push(children.last()) =~= children);
    }
}

/// The name of a package is what stands behind the last slash of its key, and its directory
/// all that comes before, with that slash.
pub proof fn name_stands_behind_the_last_slash(dir: Seq<char>, name: Seq<char>)
    requires
        dir.len() == 0 || dir.last() == '/',
        !name.contains('/'),
    ensures
        (dir + name).take(name_start(dir + name)) == dir,
        (dir + name).skip(name_start(dir + name)) == name,
    decreases name.len(),
{
    let key = dir + name;
    if name.len() == 0 {
        assert(key =~= dir);
    } else {
        let shorter = name.drop_last();
        assert(key.last() == name.last());
        assert(name.contains(name.last()));
        assert(key.drop_last() =~= dir + shorter);
        if shorter.contains('/') {
            let k = choose|k: int| 0 <= k < shorter.len() && shorter[k] == '/';
            assert(name[k] == '/');
        }
        name_stands_behind_the_last_slash(dir, shorter);
        split_key_is_whole(dir + shorter);
        assert((dir + shorter).take(name_start(dir + shorter)).len() == dir.len());
    }
    assert(key.take(dir.len() as int) =~= dir);
    assert(key.skip(dir.len() as int) =~= name);
}

/// The children of a package are the items of the `children` of its `root`; what has no root,
/// no children there or no array of them has none to follow.
pub proof fn children_are_those_of_the_root(package: JsonModel)
    ensures
        package.get("root"@) matches Some(root) ==> children_of(package) == (match root.get(
            "children"@,
        ) {
            Some(JsonModel::Array { items }) => Some(items),
            _ => None,
        }),
        package.get("root"@) is None ==> children_of(package) is None,
{
}

/// The region of a child has as many components as its `boundingVolume.region` has items, the
/// heights among them, each the number at its position there; an item that is no number
/// keeps its place as a gap. A child without such an array has no region.
pub proof fn child_region_has_every_component(child: JsonModel, volume: JsonModel)
    requires
        child.get("boundingVolume"@) == Some(volume),
    ensures
        match volume.get("region"@) {
            Some(JsonModel::Array { items }) => child_region(child) matches Some(values)
                && values.len() == items.len() && forall|i: int|
                0 <= i < items.len() ==> #[trigger] values[i] == (match items[i] {
                    JsonModel::Number { number } => Some(number),
                    _ => None,
                }),
            _ => child_region(child) is None,
        },
{
}

/// A child without a bounding volume has no region.
pub proof fn child_without_volume_has_no_region(child: JsonModel)
    requires
        child.get("boundingVolume"@) is None,
    ensures
        child_region(child) is None,
{
}

/// The components of a region say what they hold, each in its place.
pub proof fn region_says_what_it_holds(region: Option<Vec<Option<JsonNumber>>>)
    ensures
        match region {
            None => region_model(region) is None,
            Some(slots) => region_model(region) matches Some(values) && values.len()
                == slots@.len() && forall|i: int|
                0 <= i < slots@.len() ==> #[trigger] values[i] == (match slots@[i] {
                    Some(number) => Some(number@),
                    None => None,
                }),
        },
{
}

/// A child links to what its `content` links to.
pub proof fn child_links_by_its_content(child: JsonModel)
    ensures
        child.get("content"@) matches Some(content) ==> child_link(child) == link_of(content),
        child.get("content"@) is None ==> child_link(child) is None,
{
}

/// A decision about a child does not depend on the children behind it.
proof fn lemma_decided_before(
    children: Seq<JsonModel>,
    verdict: spec_fn(ExtentModel) -> bool,
    n: int,
)
    requires
        0 <= n <= children.len(),
    ensures
        decided(children, verdict).len() == children.len(),
        decided(children.take(n), verdict) == decided(children, verdict).take(n),
    decreases children.len(),
{
    every_child_is_decided(children, verdict);
    if n == children.len() {
        assert(children.take(n) =~= children);
        assert(decided(children, verdict).take(n) =~= decided(children, verdict));
    } else {
        let front = children.drop_last();
        lemma_decided_before(front, verdict, n);
        assert(front.take(n) =~= children.take(n));
        assert(decided(front, verdict).take(n) =~= decided(children, verdict).take(n));
    }
}

/// The archives that are clipped are those of the decisions to clip, and no others.
proof fn lemma_archive_is_of_a_decision(decisions: Seq<DecisionModel>, uri: Seq<char>)
    requires
        clipped_archives(decisions).contains(uri),
    ensures
        exists|j: int|
            0 <= j < decisions.len() && (#[trigger] decisions[j]) is Clip && decisions[j]->Clip_uri
                == uri,
    decreases decisions.len(),
{
    if decisions.len() > 0 {
        let n = decisions.len() - 1;
        if !(decisions[n] is Clip && decisions[n]->Clip_uri == uri) {
            lemma_archive_is_of_a_decision(decisions.drop_last(), uri);
            let j = choose|j: int|
                0 <= j < n && (#[trigger] decisions.drop_last()[j]) is Clip
                    && decisions.drop_last()[j]->Clip_uri == uri;
            assert(decisions[j] is Clip && decisions[j]->Clip_uri == uri);
        }
    }
}

/// What is done about a child: without a link, or with a link to something else than an
/// archive, it is left alone; a link out of the package's directory drops it, and so does
/// missing the clip polygon; else its archive is clipped, unless an earlier child that is
/// clipped links to the same one.
pub proof fn every_child_is_decided_for_its_reason(
    children: Seq<JsonModel>,
    verdict: spec_fn(ExtentModel) -> bool,
    i: int,
)
    requires
        0 <= i < children.len(),
    ensures
        ({
            let all = decided(children, verdict);
            let taken = |uri: Seq<char>|
                exists|j: int|
                    0 <= j < i && (#[trigger] all[j]) is Clip && all[j]->Clip_uri == uri;
            match child_link(children[i]) {
                None => all[i] is NoContent,
                Some(link) => if format_of(link) is None {
                    all[i] == (DecisionModel::NotArchive { uri: link })
                } else {
                    match resolved(Seq::empty(), link) {
                        None => all[i] == (DecisionModel::Escapes { uri: link }),
                        Some(uri) => {
                            &&& !tile_stays(children[i], verdict) ==> all[i] == (
                            DecisionModel::Misses { uri })
                            &&& tile_stays(children[i], verdict) && taken(uri) ==> all[i] == (
                            DecisionModel::Duplicate { uri })
                            &&& tile_stays(children[i], verdict) && !taken(uri) ==> all[i] == (
                            DecisionModel::Clip {
                                index: i,
                                uri,
                                region: child_region(children[i]),
                            })
                        },
                    }
                },
            }
        }),
{
    let all = decided(children, verdict);
    let upto = children.take(i + 1);
    lemma_decided_before(children, verdict, i);
    lemma_decided_before(children, verdict, i + 1);
    assert(upto.drop_last() =~= children.take(i));
    assert(upto.last() == children[i]);
    let before = decided(children.take(i), verdict);
    assert(all[i] == decided(upto, verdict)[i]);
    every_child_is_decided(children.take(i), verdict);
    if let Some(link) = child_link(children[i]) {
        if let Some(uri) = resolved(Seq::empty(), link) {
            if clipped_archives(before).contains(uri) {
                lemma_archive_is_of_a_decision(before, uri);
                let j = choose|j: int|
                    0 <= j < before.len() && (#[trigger] before[j]) is Clip && before[j]->Clip_uri
                        == uri;
                assert(all[j] is Clip && all[j]->Clip_uri == uri);
            } else {
                assert forall|j: int| 0 <= j < i && (#[trigger] all[j]) is Clip implies all[j]->Clip_uri
                    != uri by {
                    assert(before[j] == all[j]);
                    lemma_clipped_archives(before, j);
                }
            }
        }
    }
}

/// The region of a child that is clipped is the one of its bounding volume, component for
/// component: as many as there are items, the number at each position the one there.
pub proof fn clipped_child_brings_its_whole_region(
    children: Seq<JsonModel>,
    verdict: spec_fn(ExtentModel) -> bool,
    i: int,
    volume: JsonModel,
    items: Seq<JsonModel>,
)
    requires
        0 <= i < children.len(),
        decided(children, verdict)[i] is Clip,
        children[i].get("boundingVolume"@) == Some(volume),
        volume.get("region"@) == Some(JsonModel::Array { items }),
    ensures
        decided(children, verdict)[i]->Clip_region matches Some(values) && {
            &&& values.len() == items.len()
            &&& forall|k: int|
                0 <= k < items.len() ==> #[trigger] values[k] == (match items[k] {
                    JsonModel::Number { number } => Some(number),
                    _ => None,
                })
        },
{
    every_child_is_decided_for_its_reason(children, verdict, i);
}

/// Before any archive was clipped, a child is left alone where no archive of its own was
/// meant, and dropped in every other case, that of a child still to be clipped among them.
pub proof fn children_are_dropped_until_clipped(decisions: Seq<DecisionModel>, i: int)
    requires
        0 <= i < decisions.len(),
    ensures
        results_before(decisions).len() == decisions.len(),
        match decisions[i] {
            DecisionModel::NoContent => results_before(decisions)[i] is Untouched,
            DecisionModel::NotArchive { .. } => results_before(decisions)[i] is Untouched,
            DecisionModel::Escapes { .. } => results_before(decisions)[i] is Dropped,
            DecisionModel::Misses { .. } => results_before(decisions)[i] is Dropped,
            DecisionModel::Duplicate { .. } => results_before(decisions)[i] is Dropped,
            DecisionModel::Clip { .. } => results_before(decisions)[i] is Dropped,
        },
{
}

/// Kept children are counted one by one.
pub proof fn kept_children_add_up(
    first: Seq<ResultModel>,
    second: Seq<ResultModel>,
    with_region: bool,
)
    ensures
        kept_count(first + second, with_region) == kept_count(first, with_region) + kept_count(
            second,
            with_region,
        ),
    decreases second.len(),
{
    let all = first + second;
    if second.len() == 0 {
        assert(all =~= first);
    } else {
        kept_children_add_up(first, second.drop_last(), with_region);
        assert(all.drop_last() =~= first + second.drop_last());
        assert(all.last() == second.last());
    }
}

/// A kept child counts once, by whether it has a new region; a child that is left alone or
/// dropped does not count.
pub proof fn kept_child_counts_once(result: ResultModel, with_region: bool)
    ensures
        kept_count(seq![result], with_region) == (match result {
            ResultModel::Kept { region: Some(_) } => if with_region {
                1nat
            } else {
                0nat
            },
            ResultModel::Kept { region: None } => if with_region {
                0nat
            } else {
                1nat
            },
            ResultModel::Untouched => 0nat,
            ResultModel::Dropped => 0nat,
        }),
{
    let one = seq![result];
    assert(one.drop_last() =~= Seq::<ResultModel>::empty());
    assert(kept_count(one.drop_last(), with_region) == 0);
    assert(one.last() == result);
}

/// A count is above zero exactly where there is something to count.
proof fn lemma_counts(results: Seq<ResultModel>, with_region: bool)
    ensures
        kept_count(results, with_region) <= results.len(),
        kept_count(results, with_region) > 0 <==> exists|i: int|
            0 <= i < results.len() && (#[trigger] results[i] matches ResultModel::Kept { region }
                && region is Some == with_region),
    decreases results.len(),
{
    if results.len() > 0 {
        let n = results.len() - 1;
        let front = results.drop_last();
        lemma_counts(front, with_region);
        if kept_count(front, with_region) > 0 {
            let i = choose|i: int|
                0 <= i < front.len() && (#[trigger] front[i] matches ResultModel::Kept { region }
                    && region is Some == with_region);
            assert(results[i] == front[i]);
        }
        assert(results[n] == results.last());
        if exists|i: int|
            0 <= i < results.len() && (#[trigger] results[i] matches ResultModel::Kept { region }
                && region is Some == with_region) {
            let i = choose|i: int|
                0 <= i < results.len() && (#[trigger] results[i] matches ResultModel::Kept {
                    region,
                } && region is Some == with_region);
            if i < n {
                assert(front[i] == results[i]);
            }
        }
    }
}

/// The region of the root becomes the union of the new ones only where something was kept and
/// everything kept has a new region. A single kept child without one leaves it unknown, with
/// the number of such children; and where nothing was kept, nothing is done.
pub proof fn root_region_needs_every_kept_child(results: Seq<ResultModel>)
    ensures
        root_region_of(results) is NothingKept <==> (forall|i: int|
            0 <= i < results.len() ==> !((#[trigger] results[i]) is Kept)),
        root_region_of(results) is Unknown <==> (exists|i: int|
            0 <= i < results.len() && #[trigger] results[i] == (ResultModel::Kept {
                region: None,
            })),
        root_region_of(results) matches RootRegion::Unknown { without_region } ==> results.len()
            <= usize::MAX ==> without_region == kept_count(results, false),
{
    lemma_counts(results, false);
    lemma_counts(results, true);
    if kept_count(results, false) > 0 {
        let i = choose|i: int|
            0 <= i < results.len() && (#[trigger] results[i] matches ResultModel::Kept { region }
                && region is Some == false);
        assert(results[i] == (ResultModel::Kept { region: None }));
    }
    if kept_count(results, true) > 0 {
        let i = choose|i: int|
            0 <= i < results.len() && (#[trigger] results[i] matches ResultModel::Kept { region }
                && region is Some == true);
        assert(results[i] is Kept);
    }
    if exists|i: int| 0 <= i < results.len() && (#[trigger] results[i]) is Kept {
        let i = choose|i: int| 0 <= i < results.len() && (#[trigger] results[i]) is Kept;
        match results[i] {
            ResultModel::Kept { region: Some(_) } => {
                assert(kept_count(results, true) > 0);
            },
            _ => {
                assert(kept_count(results, false) > 0);
            },
        }
    }
}

/// A new region takes the place of the old one in the bounding volume: the rest of the volume
/// and of the tile is as it was. A tile without a bounding volume is left as it is.
pub proof fn new_region_replaces_the_old_one(
    tile: JsonModel,
    region: JsonModel,
    other: Seq<char>,
    inner: Seq<char>,
)
    requires
        other != "boundingVolume"@,
        inner != "region"@,
    ensures
        with_region(tile, region).get(other) == tile.get(other),
        tile.get("boundingVolume"@) is None ==> with_region(tile, region) == tile,
        tile.get("boundingVolume"@) matches Some(volume) ==> (volume is Object || volume is Null)
            ==> {
            &&& takes_region(tile)
            &&& with_region(tile, region).get("boundingVolume"@) matches Some(changed) && changed.get(
                "region"@,
            ) == Some(region) && changed.get(inner) == volume.get(inner)
        },
        tile.get("boundingVolume"@) matches Some(volume) ==> !(volume is Object || volume is Null)
            ==> !takes_region(tile),
{
    if let Some(volume) = tile.get("boundingVolume"@) {
        replaced_member(tile, "boundingVolume"@, volume.set("region"@, region), other);
        if volume is Object || volume is Null {
            put_member_is_read_back(volume, "region"@, region, inner);
        }
    }
}

/// The children of a package are gone through one after the other.
pub proof fn children_are_retained_in_turn(
    first: Seq<JsonModel>,
    first_results: Seq<ResultModel>,
    second: Seq<JsonModel>,
    second_results: Seq<ResultModel>,
)
    requires
        first.len() == first_results.len(),
        second.len() == second_results.len(),
    ensures
        retained(first + second, first_results + second_results) == retained(first, first_results)
            + retained(second, second_results),
    decreases second.len(),
{
    let all = first + second;
    let results = first_results + second_results;
    let before = retained(first, first_results);
    if second.len() == 0 {
        assert(all =~= first);
        assert(results =~= first_results);
        assert(before + retained(second, second_results) =~= before);
    } else {
        let front = second.drop_last();
        let front_results = second_results.drop_last();
        children_are_retained_in_turn(first, first_results, front, front_results);
        assert(all.drop_last() =~= first + front);
        assert(results.drop_last() =~= first_results + front_results);
        assert(all.last() == second.last());
        assert(results.last() == second_results.last());
        assert(retained(all, results) =~= before + retained(second, second_results));
    }
}

/// Of one child, what was dropped is gone, what was left alone or kept without a new region
/// is as it was, and what has a new region bears it.
pub proof fn child_is_retained_by_its_result(child: JsonModel, result: ResultModel)
    ensures
        retained(seq![child], seq![result]) == (match result {
            ResultModel::Untouched => seq![child],
            ResultModel::Dropped => Seq::empty(),
            ResultModel::Kept { region: Some(region) } => seq![with_region(child, region)],
            ResultModel::Kept { region: None } => seq![child],
        }),
{
    let one = seq![child];
    let its = seq![result];
    assert(one.drop_last() =~= Seq::<JsonModel>::empty());
    assert(retained(one.drop_last(), its.drop_last()) =~= Seq::empty());
    assert(one.last() == child);
    assert(its.last() == result);
    assert(retained(one, its) =~= match result {
        ResultModel::Untouched => seq![child],
        ResultModel::Dropped => Seq::empty(),
        ResultModel::Kept { region: Some(region) } => seq![with_region(child, region)],
        ResultModel::Kept { region: None } => seq![child],
    });
}

/// Rewriting a package puts the children that stay in the place of all children and, where
/// there is one, the new region into the root's volume. The rest of the package and of its
/// root is as it was.
pub proof fn rewriting_touches_children_and_region_alone(
    package: JsonModel,
    results: Seq<ResultModel>,
    root_region: Option<JsonModel>,
    root: JsonModel,
    children: Seq<JsonModel>,
    other: Seq<char>,
    inner: Seq<char>,
)
    requires
        package.get("root"@) == Some(root),
        root.get("children"@) == Some(JsonModel::Array { items: children }),
        other != "root"@,
        inner != "children"@,
        inner != "boundingVolume"@,
    ensures
        rewritten(package, results, root_region).get(other) == package.get(other),
        rewritten(package, results, root_region).get("root"@) matches Some(changed) && {
            &&& changed.get("children"@) == Some(
                JsonModel::Array { items: retained(children, results) },
            )
            &&& changed.get(inner) == root.get(inner)
            &&& changed.get("boundingVolume"@) == (match root_region {
                Some(region) => with_region(root, region).get("boundingVolume"@),
                None => root.get("boundingVolume"@),
            })
        },
{
    reveal_strlit("children");
    reveal_strlit("boundingVolume");
    assert("children"@.len() != "boundingVolume"@.len());
    let items = JsonModel::Array { items: retained(children, results) };
    let pruned = root.with("children"@, items);
    replaced_member(root, "children"@, items, inner);
    replaced_member(root, "children"@, items, "boundingVolume"@);
    let changed = match root_region {
        Some(region) => with_region(pruned, region),
        None => pruned,
    };
    replaced_member(package, "root"@, changed, other);
    if let Some(region) = root_region {
        if let Some(volume) = root.get("boundingVolume"@) {
            let new = volume.set("region"@, region);
            replaced_member(root, "boundingVolume"@, new, inner);
            replaced_member(pruned, "boundingVolume"@, new, inner);
            replaced_member(pruned, "boundingVolume"@, new, "children"@);
        }
    }
}

/// A package without children to follow is left as it is.
pub proof fn package_without_children_is_left(
    package: JsonModel,
    results: Seq<ResultModel>,
    root_region: Option<JsonModel>,
)
    requires
        children_of(package) is None,
    ensures
        rewritten(package, results, root_region) == package,
{
}

/// Decisions say what they hold, in their order.
pub proof fn decisions_say_what_they_hold(decisions: Seq<ChildDecision>, i: int)
    requires
        0 <= i < decisions.len(),
    ensures
        decision_models(decisions).len() == decisions.len(),
        match decisions[i] {
            ChildDecision::NoContent => decision_models(decisions)[i] is NoContent,
            ChildDecision::NotArchive { uri } => decision_models(decisions)[i] == (
            DecisionModel::NotArchive { uri: uri@ }),
            ChildDecision::Escapes { uri } => decision_models(decisions)[i] == (
            DecisionModel::Escapes { uri: uri@ }),
            ChildDecision::Misses { uri } => decision_models(decisions)[i] == (
            DecisionModel::Misses { uri: uri@ }),
            ChildDecision::Duplicate { uri } => decision_models(decisions)[i] == (
            DecisionModel::Duplicate { uri: uri@ }),
            ChildDecision::Clip { child } => decision_models(decisions)[i] == (
            DecisionModel::Clip {
                index: child.index as int,
                uri: child.uri@,
                region: region_model(child.region),
            }),
        },
{
}

/// Results say what they hold, in their order.
pub proof fn results_say_what_they_hold(results: Seq<ChildResult>, i: int)
    requires
        0 <= i < results.len(),
    ensures
        result_models(results).len() == results.len(),
        match results[i] {
            ChildResult::Untouched => result_models(results)[i] is Untouched,
            ChildResult::Dropped => result_models(results)[i] is Dropped,
            ChildResult::Kept { region: Some(region) } => result_models(results)[i] == (
            ResultModel::Kept { region: Some(region@) }),
            ChildResult::Kept { region: None } => result_models(results)[i] == (
            ResultModel::Kept { region: None }),
        },
{
}

/// Every new region has its place where no child that gets one has a bounding volume that is
/// neither an object nor null.
pub proof fn regions_fit_into_their_volumes(children: Seq<JsonModel>, results: Seq<ResultModel>)
    requires
        forall|i: int|
            #![trigger children[i]]
            0 <= i < children.len() && i < results.len() && (results[i] matches ResultModel::Kept {
                region: Some(_),
            }) ==> match children[i].get("boundingVolume"@) {
                Some(JsonModel::Object { .. }) => true,
                Some(JsonModel::Null) => true,
                Some(_) => false,
                None => true,
            },
    ensures
        regions_fit(children, results),
{
    assert forall|i: int|
        0 <= i < children.len() && i < results.len() && (#[trigger] results[i] matches ResultModel::Kept {
            region: Some(region),
        }) implies takes_region(children[i]) by {
        let child = children[i];
    }
}

/// What is decided about a child that is clipped brings its region along, component for
/// component.
pub proof fn decided_child_brings_its_whole_region<F: Fn(&Extent) -> bool>(
    children: &Vec<Json>,
    meets: &F,
    r: Vec<ChildDecision>,
    i: int,
    child: PackageChild,
    volume: JsonModel,
    items: Seq<JsonModel>,
)
    requires
        call_ensures(decide_children::<F>, (children, meets), r),
        0 <= i < children@.len(),
        r@.len() == children@.len(),
        r@[i] == (ChildDecision::Clip { child }),
        children@[i]@.get("boundingVolume"@) == Some(volume),
        volume.get("region"@) == Some(JsonModel::Array { items }),
    ensures
        child.index == i,
        child.region matches Some(values) && {
            &&& values@.len() == items.len()
            &&& forall|k: int|
                0 <= k < items.len() ==> match #[trigger] values@[k] {
                    Some(number) => items[k] == (JsonModel::Number { number: number@ }),
                    None => !(items[k] is Number),
                }
        },
{
    let models = json_models(children@);
    let verdict = verdict_of(*meets);
    assert(decision_models(r@)[i] == r@[i]@);
    assert(models[i] == children@[i]@);
    clipped_child_brings_its_whole_region(models, verdict, i, volume, items);
    clipped_children_are_sound(models, verdict, i);
    if let Some(values) = child.region {
        let slots = slot_models(values@);
        assert(slots.len() == values@.len());
        assert forall|k: int| 0 <= k < items.len() implies match #[trigger] values@[k] {
            Some(number) => items[k] == (JsonModel::Number { number: number@ }),
            None => !(items[k] is Number),
        } by {
            assert(slots[k] == crate::tileset::slot_model(values@[k]));
        }
    }
}

/// Splitting the key of a package gives its directory and its name, and the archive of a child
/// lies in that directory.
pub proof fn archives_lie_beside_the_package(
    package_key: &str,
    uri: &str,
    parts: (String, String),
    prefix: &str,
    key: String,
    dir: Seq<char>,
    name: Seq<char>,
)
    requires
        call_ensures(split_key, (package_key,), parts),
        call_ensures(archive_key, (prefix, uri), key),
        prefix@ == parts.0@,
        package_key@ == dir + name,
        dir.len() == 0 || dir.last() == '/',
        !name.contains('/'),
    ensures
        parts.0@ == dir,
        parts.1@ == name,
        key@ == dir + uri@,
{
    name_stands_behind_the_last_slash(dir, name);
}

/// A run starts without failures and with what was decided.
pub proof fn run_starts_with_what_was_decided(decisions: &Vec<ChildDecision>, run: PackageRun)
    requires
        call_ensures(PackageRun::new, (decisions,), run),
    ensures
        run.failures == 0,
        run.results@.len() == decisions@.len(),
        forall|i: int|
            0 <= i < decisions@.len() ==> match #[trigger] decisions@[i] {
                ChildDecision::NoContent => run.results@[i] is Untouched,
                ChildDecision::NotArchive { .. } => run.results@[i] is Untouched,
                _ => run.results@[i] is Dropped,
            },
{
    let models = decision_models(decisions@);
    let results = result_models(run.results@);
    assert(results.len() == run.results@.len());
    assert forall|i: int| 0 <= i < decisions@.len() implies match #[trigger] decisions@[i] {
        ChildDecision::NoContent => run.results@[i] is Untouched,
        ChildDecision::NotArchive { .. } => run.results@[i] is Untouched,
        _ => run.results@[i] is Dropped,
    } by {
        assert(models[i] == decisions@[i]@);
        assert(results[i] == run.results@[i]@);
    }
}

/// A child whose archive was clipped is kept with its new region, and nothing else changes.
pub proof fn clipped_child_is_kept(
    run: &mut PackageRun,
    index: usize,
    region: Option<Json>,
    other: int,
)
    requires
        call_ensures(PackageRun::clipped, (run, index, region), ()),
        index < old(run).results@.len(),
        0 <= other < old(run).results@.len(),
    ensures
        final(run).results@.len() == old(run).results@.len(),
        result_models(final(run).results@)[index as int] == (ResultModel::Kept {
            region: match region {
                Some(region) => Some(region@),
                None => None,
            },
        }),
        other != index ==> final(run).results@[other]@ == old(run).results@[other]@,
        final(run).failures == old(run).failures,
{
    let before = result_models(old(run).results@);
    let after = result_models(final(run).results@);
    assert(after.len() == final(run).results@.len());
    assert(before.len() == old(run).results@.len());
    assert(before[other] == old(run).results@[other]@);
    assert(after[other] == final(run).results@[other]@);
}

/// A failure is counted, and changes no result.
pub proof fn failure_is_counted(run: &mut PackageRun)
    requires
        call_ensures(PackageRun::failed, (run,), ()),
    ensures
        final(run).failures == old(run).failures + 1,
        final(run).results@ == old(run).results@,
{
}

/// There is something to say at the end exactly where an archive could not be clipped.
pub proof fn failures_are_spoken_of(run: &PackageRun, r: Option<String>)
    requires
        call_ensures(PackageRun::failure_message, (run,), r),
    ensures
        r is Some <==> run.failures > 0,
{
}

/// Rewriting a package leaves its members in their places.
pub proof fn rewriting_keeps_members_in_place(
    members: Seq<MemberModel>,
    results: Seq<ResultModel>,
    root_region: Option<JsonModel>,
)
    ensures
        rewritten(JsonModel::Object { members }, results, root_region) matches JsonModel::Object {
            members: after,
        } && {
            &&& after.len() == members.len()
            &&& forall|i: int|
                0 <= i < members.len() ==> (#[trigger] after[i]).key == members[i].key && (
                members[i].key != "root"@ ==> after[i] == members[i])
        },
{
    let package = JsonModel::Object { members };
    if children_of(package) is Some {
        let root = package.get("root"@)->0;
        let children = children_of(package)->0;
        let pruned = root.with(
            "children"@,
            JsonModel::Array { items: retained(children, results) },
        );
        let changed = match root_region {
            Some(region) => with_region(pruned, region),
            None => pruned,
        };
        replacing_keeps_every_place(members, "root"@, changed);
    }
}

/// A new region leaves the members of its tile in their places.
pub proof fn new_region_keeps_members_in_place(members: Seq<MemberModel>, region: JsonModel)
    ensures
        with_region(JsonModel::Object { members }, region) matches JsonModel::Object {
            members: after,
        } && {
            &&& after.len() == members.len()
            &&& forall|i: int|
                0 <= i < members.len() ==> (#[trigger] after[i]).key == members[i].key && (
                members[i].key != "boundingVolume"@ ==> after[i] == members[i])
        },
{
    let tile = JsonModel::Object { members };
    if let Some(volume) = tile.get("boundingVolume"@) {
        replacing_keeps_every_place(members, "boundingVolume"@, volume.set("region"@, region));
    }
}

/// What is said at the end counts the failures among all archives that were tried: those that
/// failed and those that were kept.
pub proof fn failures_are_counted_among_all(run: &PackageRun, r: Option<String>, kept: nat)
    requires
        call_ensures(PackageRun::failure_message, (run,), r),
        run.failures > 0,
        kept == kept_count(result_models(run.results@), true) + kept_count(
            result_models(run.results@),
            false,
        ),
    ensures
        r matches Some(s) && starts_with(
            s@,
            decimal(run.failures as nat) + " of "@ + decimal(run.failures as nat + kept),
        ),
{
    if let Some(s) = r {
        prefix_is_what_comes_first(
            s@,
            decimal(run.failures as nat) + " of "@ + decimal(run.failures as nat + kept),
            " package archive(s) failed to clip"@,
        );
    }
}

} // verus!
