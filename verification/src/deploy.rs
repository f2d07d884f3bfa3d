//! From directory names to link groups.
//!
//! A directory takes part when its name begins with a `{slug,...}` marker
//! and one of the slugs names an enabled feature. The first such feature of
//! the registry governs the directory: the directory's files go to the link
//! group of the feature's target. Groups are told apart by the text of the
//! expanded target.

use crate::feature::{is_first_match, view_of, Feature, FeatureList};
use crate::link::{
    collisions, distinct, files_of, provided_by, rel_views, tree, LinkGroup, LinkGroupView,
    SourceView,
};
use crate::path::RelPath;
use crate::text::{split, split_on, views};
use vstd::prelude::*;

verus! {

/// The first place of `c` in `s` is `at`.
pub open spec fn first_at(s: Seq<char>, c: char, at: int) -> bool {
    &&& 0 <= at < s.len()
    &&& s[at] == c
    &&& forall|j: int| 0 <= j < at ==> s[j] != c
}

/// A name with a slug marker: it begins with `{` and holds a `}`.
pub open spec fn is_marked(name: Seq<char>) -> bool {
    name.len() > 0 && name[0] == '{' && name.contains('}')
}

/// The slugs that a directory name declares: what stands between the `{`
/// that begins the name and the first `}`, split at every comma. A name
/// without a marker declares none.
pub open spec fn slugs_of(name: Seq<char>) -> Option<Seq<Seq<char>>> {
    if is_marked(name) {
        let close = choose|at: int| first_at(name, '}', at);
        Some(split_on(name.subrange(1, close), ','))
    } else {
        None
    }
}

/// The slugs that the directory name `name` declares, in the order in which
/// it names them. An empty marker declares one empty slug.
pub fn extract_slugs(name: &str) -> (slugs: Option<Vec<String>>)
    ensures
        match slugs {
            Some(list) => slugs_of(name@) == Some(views(list@)),
            None => slugs_of(name@) is None,
        },
{
    broadcast use vstd::string::group_string_axioms;

    let n = name.unicode_len();
    let mut close: Option<usize> = None;
    let mut i: usize = 0;
    for c in it: name.chars()
        invariant
            it.seq() == name@,
            n == name@.len(),
            i == it.index(),
            i <= n,
            i > 0 ==> name@[0] == '{',
            match close {
                Some(at) => first_at(name@, '}', at as int),
                None => forall|j: int| 0 <= j < i ==> name@[j] != '}',
            },
    {
        if i == 0 && c != '{' {
            return None;
        }
        if close.is_none() && c == '}' {
            close = Some(i);
        }
        i += 1;
    }
    match close {
        Some(at) => {
            proof {
                let chosen = choose|k: int| first_at(name@, '}', k);
                assert(chosen == at);
            }
            Some(split(name.substring_char(1, at), ','))
        },
        None => None,
    }
}

/// The feature that governs the directory called `name`: the first of
/// `features`, in their order, that one of the directory's slugs names. A
/// directory without a marker has none.
pub fn governing_feature<'a>(features: &'a FeatureList, name: &str) -> (feature: Option<
    &'a Feature,
>)
    ensures
        match slugs_of(name@) {
            Some(slugs) => is_first_match(features@, slugs, view_of(feature)),
            None => feature is None,
        },
{
    match extract_slugs(name) {
        Some(slugs) => features.get_first_match(slugs.as_slice()),
        None => None,
    }
}

/// A target as written that stands for itself: it holds no `$` and does not
/// begin with `~`.
pub open spec fn is_plain(template: Seq<char>) -> bool {
    !template.contains('$') && (template.len() == 0 || template[0] != '~')
}

/// Calls `shellexpand::full`, which replaces a leading `~` by the home
/// directory and `$VAR` or `${VAR}` by the value of the variable, as the
/// process finds them. The result is `Ok` with the expanded text, or `Err`
/// with the name of a variable that could not be looked up. Only one thing
/// is claimed: a template that holds no `$` and does not begin with `~`
/// comes back unchanged.
#[verifier::external_body]
fn expand(template: &str) -> (expanded: Result<String, String>)
    ensures
        expanded is Err ==> !is_plain(template@),
        expanded matches Ok(text) ==> (is_plain(template@) ==> text@ == template@),
{
    match shellexpand::full(template) {
        Ok(text) => Ok(text.into_owned()),
        Err(error) => Err(error.var_name),
    }
}

/// The views of a list of groups, in order.
pub open spec fn group_views(groups: Seq<LinkGroup>) -> Seq<LinkGroupView> {
    Seq::new(groups.len(), |i: int| groups[i]@)
}

/// The group at position `at` is the one for `target`.
pub open spec fn group_at(groups: Seq<LinkGroupView>, target: Seq<char>, at: int) -> bool {
    0 <= at < groups.len() && groups[at].target == target
}

/// There is a group for `target`.
pub open spec fn has_group(groups: Seq<LinkGroupView>, target: Seq<char>) -> bool {
    exists|at: int| group_at(groups, target, at)
}

/// What the group for `target` holds; nothing where there is no such group.
pub open spec fn sources_for(groups: Seq<LinkGroupView>, target: Seq<char>) -> Seq<SourceView> {
    if has_group(groups, target) {
        groups[choose|at: int| group_at(groups, target, at)].sources
    } else {
        Seq::empty()
    }
}

/// The groups after the tree rooted at `base` has been merged into the
/// group for `target`. A target without a group gets a new one, behind the
/// others.
pub open spec fn placed(
    groups: Seq<LinkGroupView>,
    target: Seq<char>,
    base: Seq<char>,
    files: Seq<Seq<Seq<char>>>,
) -> Seq<LinkGroupView> {
    let grown = LinkGroupView { target, sources: sources_for(groups, target) + tree(base, files) };
    if has_group(groups, target) {
        groups.update(choose|at: int| group_at(groups, target, at), grown)
    } else {
        groups.push(grown)
    }
}

/// No two groups have the same target.
pub open spec fn distinct_targets(groups: Seq<LinkGroupView>) -> bool {
    forall|i: int, j: int|
        0 <= i < j < groups.len() ==> (#[trigger] groups[i]).target != (#[trigger] groups[j]).target
}

/// Why a tree could not be taken into a deployment.
#[derive(Debug, PartialEq, Eq)]
pub enum DeployError {
    /// The target names a variable that could not be looked up.
    Expansion { variable: String },
    /// The group for `target` already provides the paths `conflicts`.
    Conflict { target: String, conflicts: Vec<RelPath> },
}

/// The link groups of one run, one for each target.
#[derive(Debug)]
pub struct Deployment {
    groups: Vec<LinkGroup>,
}

impl View for Deployment {
    type V = Seq<LinkGroupView>;

    closed spec fn view(&self) -> Seq<LinkGroupView> {
        group_views(self.groups@)
    }
}

impl Deployment {
    #[verifier::type_invariant]
    spec fn well_formed(&self) -> bool {
        distinct_targets(group_views(self.groups@))
    }

    /// A deployment without groups.
    pub fn new() -> (deployment: Deployment)
        ensures
            deployment@.len() == 0,
    {
        Deployment { groups: Vec::new() }
    }

    /// The groups, in the order in which their targets first came up. No two
    /// of them have the same target.
    pub fn groups(&self) -> (groups: &Vec<LinkGroup>)
        ensures
            group_views(groups@) == self@,
            distinct_targets(self@),
    {
        proof {
            use_type_invariant(self);
        }
        &self.groups
    }

    /// The position of the group for `target`, if there is one.
    fn find(&self, target: &String) -> (at: Option<usize>)
        ensures
            match at {
                Some(at) => group_at(self@, target@, at as int),
                None => !has_group(self@, target@),
            },
    {
        let mut i: usize = 0;
        while i < self.groups.len()
            invariant
                i <= self.groups.len(),
                forall|j: int| 0 <= j < i ==> !group_at(self@, target@, j),
            decreases self.groups.len() - i,
        {
            if *self.groups[i].target() == *target {
                return Some(i);
            }
            i += 1;
        }
        None
    }

    /// Merges the tree rooted at `base`, whose files are `files`, into the
    /// group for `target`; a target that has no group yet gets one. Where
    /// the group already provides one of the paths, the deployment stays as
    /// it was, and the paths in question are returned.
    pub fn place(&mut self, target: String, base: &str, files: &[RelPath]) -> (merged: Result<
        (),
        Vec<RelPath>,
    >)
        ensures
            distinct_targets(final(self)@),
            match merged {
                Ok(_) => {
                    &&& collisions(sources_for(old(self)@, target@), rel_views(files@)).len() == 0
                    &&& final(self)@ == placed(old(self)@, target@, base@, rel_views(files@))
                },
                Err(conflicts) => {
                    &&& conflicts@.len() > 0
                    &&& rel_views(conflicts@) == collisions(
                        sources_for(old(self)@, target@),
                        rel_views(files@),
                    )
                    &&& final(self)@ == old(self)@
                },
            },
    {
        proof {
            use_type_invariant(&*self);
        }
        let ghost before = self@;
        let found = self.find(&target);
        // The groups are taken out and put back whole, so that the
        // deployment is never seen with a group missing.
        let mut groups: Vec<LinkGroup> = Vec::new();
        std::mem::swap(&mut self.groups, &mut groups);
        let merged = match found {
            Some(at) => {
                proof {
                    let chosen = choose|k: int| group_at(before, target@, k);
                    assert(chosen == at);
                }
                let mut group = groups.remove(at);
                let merged = group.add_source(base, files);
                groups.insert(at, group);
                proof {
                    assert(group_views(groups@) =~= before.update(at as int, group@));
                    if merged is Err {
                        assert(before.update(at as int, group@) =~= before);
                    }
                }
                merged
            },
            None => {
                let mut group = LinkGroup::empty(target);
                proof {
                    lemma_nothing_collides(rel_views(files@));
                    assert(group@.sources =~= Seq::<SourceView>::empty());
                    assert forall|j: int| 0 <= j < before.len() implies before[j].target
                        != target@ by {
                        assert(!group_at(before, target@, j));
                    }
                }
                let merged = group.add_source(base, files);
                groups.push(group);
                assert(group_views(groups@) =~= before.push(group@));
                merged
            },
        };
        assert(distinct_targets(group_views(groups@)));
        std::mem::swap(&mut self.groups, &mut groups);
        merged
    }

    /// Takes the tree rooted at `base`, whose files are `files`, into the
    /// group that the target of `feature` names once it is expanded. The
    /// expansion depends on the process's environment. Whatever it gives:
    /// on an error the deployment stays as it was, and else the tree has
    /// been merged into the group for the expanded target. A target that
    /// stands for itself is taken as it is written.
    pub fn add(&mut self, feature: &Feature, base: &str, files: &[RelPath]) -> (added: Result<
        (),
        DeployError,
    >)
        ensures
            distinct_targets(final(self)@),
            match added {
                Ok(_) => exists|target: Seq<char>|
                    {
                        &&& is_plain(feature@.target) ==> target == feature@.target
                        &&& collisions(sources_for(old(self)@, target), rel_views(files@)).len()
                            == 0
                        &&& final(self)@ == #[trigger] placed(
                            old(self)@,
                            target,
                            base@,
                            rel_views(files@),
                        )
                    },
                Err(DeployError::Expansion { variable }) => {
                    &&& !is_plain(feature@.target)
                    &&& final(self)@ == old(self)@
                },
                Err(DeployError::Conflict { target, conflicts }) => {
                    &&& is_plain(feature@.target) ==> target@ == feature@.target
                    &&& conflicts@.len() > 0
                    &&& rel_views(conflicts@) == collisions(
                        sources_for(old(self)@, target@),
                        rel_views(files@),
                    )
                    &&& final(self)@ == old(self)@
                },
            },
    {
        proof {
            use_type_invariant(&*self);
        }
        match expand(feature.target.as_str()) {
            Err(variable) => Err(DeployError::Expansion { variable }),
            Ok(target) => {
                let kept = target.clone();
                match self.place(target, base, files) {
                    Ok(_) => Ok(()),
                    Err(conflicts) => Err(DeployError::Conflict { target: kept, conflicts }),
                }
            },
        }
    }
}

/// A group without sources provides no path, so no path collides with it.
pub proof fn lemma_nothing_collides(files: Seq<Seq<Seq<char>>>)
    ensures
        collisions(Seq::<SourceView>::empty(), files).len() == 0,
{
    let none = Seq::<SourceView>::empty();
    let named = distinct(files);
    let taken = provided_by(none);
    assert forall|i: int| 0 <= i < named.len() implies !taken(named[i]) by {
        assert(files_of(none).len() == 0);
    }
    named.lemma_all_neg_filter_empty(taken);
}

} // verus!
