//! Features, the host they are evaluated on, and the registry that orders
//! them.
//!
//! A feature is enabled or not on a given [`Host`]. The host is a plain
//! record of what was observed of the machine: its operating system and the
//! commands that ran there with success. The library never runs a command
//! itself.

use crate::text::{contains, views};
use vstd::prelude::*;

verus! {

/// The operating system of the machine that files are deployed on.
#[derive(Clone, Copy, Debug, PartialEq, Eq, Structural)]
pub enum HostOs {
    MacOS,
    Linux,
    Other,
}

/// How one attempt to run a command ended.
#[derive(Clone, Copy, Debug, PartialEq, Eq, Structural)]
pub enum Run {
    /// The process could not be started.
    NotLaunched,
    /// The process started and ended, with or without a success status.
    Exited { success: bool },
}

impl Run {
    /// A run passes when the process was started and ended with success.
    pub open spec fn passes(self) -> bool {
        self == (Run::Exited { success: true })
    }

    /// Whether the run passes. A process that could not be started does not.
    pub fn passed(&self) -> (yes: bool)
        ensures
            yes == self.passes(),
    {
        match self {
            Run::NotLaunched => false,
            Run::Exited { success } => *success,
        }
    }
}

/// What is known of the machine.
#[derive(Debug)]
pub struct Host {
    os: HostOs,
    succeeded: Vec<String>,
}

/// The mathematical content of a [`Host`].
pub struct HostView {
    pub os: HostOs,
    /// The commands of which a run has passed.
    pub succeeded: Set<Seq<char>>,
}

impl View for Host {
    type V = HostView;

    closed spec fn view(&self) -> HostView {
        HostView { os: self.os, succeeded: views(self.succeeded@).to_set() }
    }
}

impl Host {
    /// A host with the given system, on which no command has passed yet.
    pub fn new(os: HostOs) -> (host: Host)
        ensures
            host@.os == os,
            host@.succeeded == Set::<Seq<char>>::empty(),
    {
        let host = Host { os, succeeded: Vec::new() };
        assert(host@.succeeded =~= Set::<Seq<char>>::empty());
        host
    }

    /// The host's operating system.
    pub fn os(&self) -> (os: HostOs)
        ensures
            os == self@.os,
    {
        self.os
    }

    /// Notes how a run of `command` ended. A run that passes makes the
    /// command one that succeeds on this host; any other run changes nothing.
    pub fn record(&mut self, command: String, run: Run)
        ensures
            final(self)@.os == old(self)@.os,
            final(self)@.succeeded == if run.passes() {
                old(self)@.succeeded.insert(command@)
            } else {
                old(self)@.succeeded
            },
    {
        if run.passed() {
            let ghost before = views(self.succeeded@);
            self.succeeded.push(command);
            assert(views(self.succeeded@) =~= before.push(command@));
            proof {
                before.lemma_push_to_set_commute(command@);
            }
        }
    }

    /// Whether a run of `command` has passed on this host.
    pub fn succeeds(&self, command: &String) -> (yes: bool)
        ensures
            yes == self@.succeeded.contains(command@),
    {
        contains(self.succeeded.as_slice(), command)
    }
}

/// The rule that decides whether a feature is enabled on a host.
#[derive(Debug, PartialEq, Eq)]
pub enum Enabled {
    /// On every host.
    All,
    /// On hosts that run macOS.
    MacOS,
    /// On hosts that run Linux.
    Linux,
    /// On hosts where this command, run without arguments, passes.
    Command(String),
    /// On no host.
    Never,
}

/// The mathematical content of an [`Enabled`] rule.
pub enum EnabledView {
    All,
    MacOS,
    Linux,
    Command(Seq<char>),
    Never,
}

impl EnabledView {
    /// Whether the rule holds on `host`.
    pub open spec fn holds(self, host: HostView) -> bool {
        match self {
            EnabledView::All => true,
            EnabledView::MacOS => host.os == HostOs::MacOS,
            EnabledView::Linux => host.os == HostOs::Linux,
            EnabledView::Command(command) => host.succeeded.contains(command),
            EnabledView::Never => false,
        }
    }
}

impl View for Enabled {
    type V = EnabledView;

    open spec fn view(&self) -> EnabledView {
        match self {
            Enabled::All => EnabledView::All,
            Enabled::MacOS => EnabledView::MacOS,
            Enabled::Linux => EnabledView::Linux,
            Enabled::Command(command) => EnabledView::Command(command@),
            Enabled::Never => EnabledView::Never,
        }
    }
}

impl Clone for Enabled {
    fn clone(&self) -> (copy: Self)
        ensures
            copy == *self,
    {
        match self {
            Enabled::All => Enabled::All,
            Enabled::MacOS => Enabled::MacOS,
            Enabled::Linux => Enabled::Linux,
            Enabled::Command(command) => Enabled::Command(command.clone()),
            Enabled::Never => Enabled::Never,
        }
    }
}

/// A named unit of deployment: directories that carry its slug are linked
/// into its target when its rule holds.
#[derive(Debug, PartialEq, Eq)]
pub struct Feature {
    /// The name by which directories refer to the feature.
    pub slug: String,
    /// The target directory, as written: it may hold `~` and `$VAR`.
    pub target: String,
    /// The rule that enables the feature.
    pub enabled: Enabled,
}

/// The mathematical content of a [`Feature`].
pub struct FeatureView {
    pub slug: Seq<char>,
    pub target: Seq<char>,
    pub enabled: EnabledView,
}

impl View for Feature {
    type V = FeatureView;

    open spec fn view(&self) -> FeatureView {
        FeatureView { slug: self.slug@, target: self.target@, enabled: self.enabled@ }
    }
}

impl Clone for Feature {
    fn clone(&self) -> (copy: Self)
        ensures
            copy == *self,
    {
        Feature {
            slug: self.slug.clone(),
            target: self.target.clone(),
            enabled: self.enabled.clone(),
        }
    }
}

impl Feature {
    /// Whether the feature is enabled on `host`: whether its rule holds
    /// there.
    pub fn enabled(&self, host: &Host) -> (yes: bool)
        ensures
            yes == self@.enabled.holds(host@),
    {
        match &self.enabled {
            Enabled::Never => false,
            Enabled::All => true,
            Enabled::MacOS => host.os == HostOs::MacOS,
            Enabled::Linux => host.os == HostOs::Linux,
            Enabled::Command(command) => host.succeeds(command),
        }
    }
}

/// The registry: features in the order in which they were declared. Where
/// several features match, the one declared first wins.
#[derive(Debug, PartialEq, Eq)]
pub struct FeatureList(pub Vec<Feature>);

/// The views of a list of features, in order.
pub open spec fn feature_views(features: Seq<Feature>) -> Seq<FeatureView> {
    Seq::new(features.len(), |i: int| features[i]@)
}

impl View for FeatureList {
    type V = Seq<FeatureView>;

    open spec fn view(&self) -> Seq<FeatureView> {
        feature_views(self.0@)
    }
}

/// The features whose slug is one of `names`.
pub open spec fn slug_in(names: Seq<Seq<char>>) -> spec_fn(FeatureView) -> bool {
    |f: FeatureView| names.contains(f.slug)
}

/// The features that are enabled on `host`.
pub open spec fn enabled_on(host: HostView) -> spec_fn(FeatureView) -> bool {
    |f: FeatureView| f.enabled.holds(host)
}

/// Position `at` holds the first feature of `features` whose slug is one of
/// `names`.
pub open spec fn first_match_at(
    features: Seq<FeatureView>,
    names: Seq<Seq<char>>,
    at: int,
) -> bool {
    &&& 0 <= at < features.len()
    &&& names.contains(features[at].slug)
    &&& forall|j: int| 0 <= j < at ==> !names.contains(#[trigger] features[j].slug)
}

/// No feature of `features` has a slug that is one of `names`.
pub open spec fn no_match(features: Seq<FeatureView>, names: Seq<Seq<char>>) -> bool {
    forall|j: int| 0 <= j < features.len() ==> !names.contains(#[trigger] features[j].slug)
}

/// `first` is the answer to the search for the first feature of `features`
/// whose slug is one of `names`.
pub open spec fn is_first_match(
    features: Seq<FeatureView>,
    names: Seq<Seq<char>>,
    first: Option<FeatureView>,
) -> bool {
    match first {
        Some(feature) => exists|at: int|
            first_match_at(features, names, at) && feature == features[at],
        None => no_match(features, names),
    }
}

/// The view of a feature that may be there.
pub open spec fn view_of(feature: Option<&Feature>) -> Option<FeatureView> {
    match feature {
        Some(feature) => Some(feature@),
        None => None,
    }
}

impl FeatureList {
    /// The features whose slug is one of `slugs`, in the registry's order.
    pub fn filter_slugs(&self, slugs: &[String]) -> (kept: FeatureList)
        ensures
            kept@ == self@.filter(slug_in(views(slugs@))),
    {
        let ghost keep = slug_in(views(slugs@));
        let mut kept: Vec<Feature> = Vec::new();
        let mut i: usize = 0;
        assert(self@.take(0) =~= Seq::<FeatureView>::empty());
        assert(Seq::<FeatureView>::empty().filter(keep) =~= Seq::<FeatureView>::empty()) by {
            reveal(Seq::filter);
        }
        while i < self.0.len()
            invariant
                i <= self.0.len(),
                keep == slug_in(views(slugs@)),
                feature_views(kept@) == self@.take(i as int).filter(keep),
            decreases self.0.len() - i,
        {
            let ghost before = feature_views(kept@);
            proof {
                assert(self@.take(i + 1) =~= self@.take(i as int).push(self@[i as int]));
                Seq::lemma_filter_push(self@.take(i as int), self@[i as int], keep);
            }
            if contains(slugs, &self.0[i].slug) {
                kept.push(self.0[i].clone());
                assert(feature_views(kept@) =~= before.push(self@[i as int]));
            }
            i += 1;
        }
        assert(self@.take(i as int) =~= self@);
        FeatureList(kept)
    }

    /// The features that are enabled on `host`, in the registry's order.
    pub fn filter_enabled(&self, host: &Host) -> (kept: FeatureList)
        ensures
            kept@ == self@.filter(enabled_on(host@)),
    {
        let ghost keep = enabled_on(host@);
        let mut kept: Vec<Feature> = Vec::new();
        let mut i: usize = 0;
        assert(self@.take(0) =~= Seq::<FeatureView>::empty());
        assert(Seq::<FeatureView>::empty().filter(keep) =~= Seq::<FeatureView>::empty()) by {
            reveal(Seq::filter);
        }
        while i < self.0.len()
            invariant
                i <= self.0.len(),
                keep == enabled_on(host@),
                feature_views(kept@) == self@.take(i as int).filter(keep),
            decreases self.0.len() - i,
        {
            let ghost before = feature_views(kept@);
            proof {
                assert(self@.take(i + 1) =~= self@.take(i as int).push(self@[i as int]));
                Seq::lemma_filter_push(self@.take(i as int), self@[i as int], keep);
            }
            if self.0[i].enabled(host) {
                kept.push(self.0[i].clone());
                assert(feature_views(kept@) =~= before.push(self@[i as int]));
            }
            i += 1;
        }
        assert(self@.take(i as int) =~= self@);
        FeatureList(kept)
    }

    /// The first feature, in the registry's order, whose slug is one of
    /// `slugs`; none where no feature has such a slug. The order of `slugs`
    /// plays no part.
    pub fn get_first_match(&self, slugs: &[String]) -> (first: Option<&Feature>)
        ensures
            is_first_match(self@, views(slugs@), view_of(first)),
    {
        let mut i: usize = 0;
        while i < self.0.len()
            invariant
                i <= self.0.len(),
                forall|j: int| 0 <= j < i ==> !views(slugs@).contains(#[trigger] self@[j].slug),
            decreases self.0.len() - i,
        {
            if contains(slugs, &self.0[i].slug) {
                assert(first_match_at(self@, views(slugs@), i as int));
                return Some(&self.0[i]);
            }
            i += 1;
        }
        None
    }
}

/// The first match is the first of the features that `filter_slugs` keeps:
/// where a feature matches first, the kept features begin with it, and
/// where none matches, none is kept.
pub proof fn lemma_first_match_heads_filter(features: Seq<FeatureView>, names: Seq<Seq<char>>)
    ensures
        no_match(features, names) <==> features.filter(slug_in(names)).len() == 0,
        forall|at: int| #[trigger]
            first_match_at(features, names, at) ==> features.filter(slug_in(names)).len() > 0
                && features.filter(slug_in(names))[0] == features[at],
    decreases features.len(),
{
    let keep = slug_in(names);
    reveal(Seq::filter);
    if features.len() > 0 {
        let rest = features.drop_last();
        let last = features.last();
        lemma_first_match_heads_filter(rest, names);
        assert(no_match(rest, names) <==> rest.filter(keep).len() == 0);
        if no_match(features, names) {
            assert forall|j: int| 0 <= j < rest.len() implies !names.contains(
                #[trigger] rest[j].slug,
            ) by {
                assert(rest[j] == features[j]);
            }
            assert(!keep(features[features.len() - 1]));
        }
        if features.filter(keep).len() == 0 {
            assert forall|j: int| 0 <= j < features.len() implies !names.contains(
                #[trigger] features[j].slug,
            ) by {
                if j < rest.len() {
                    assert(rest[j] == features[j]);
                    assert(!names.contains(rest[j].slug));
                }
            }
        }
        assert forall|at: int| #[trigger]
            first_match_at(features, names, at) implies features.filter(keep).len() > 0
            && features.filter(keep)[0] == features[at] by {
            if at < rest.len() {
                assert(rest[at] == features[at]);
                assert forall|j: int| 0 <= j < at implies !names.contains(
                    #[trigger] rest[j].slug,
                ) by {
                    assert(rest[j] == features[j]);
                }
                assert(first_match_at(rest, names, at));
            } else {
                assert forall|j: int| 0 <= j < rest.len() implies !names.contains(
                    #[trigger] rest[j].slug,
                ) by {
                    assert(rest[j] == features[j]);
                }
                assert(no_match(rest, names));
            }
        }
    }
}

/// Only the registry's order decides: two lists that name the same slugs,
/// in whatever order and however often, have the same first match.
pub proof fn lemma_slug_order_plays_no_part(
    features: Seq<FeatureView>,
    one: Seq<Seq<char>>,
    other: Seq<Seq<char>>,
    first: Option<FeatureView>,
)
    requires
        forall|slug: Seq<char>| one.contains(slug) <==> other.contains(slug),
    ensures
        is_first_match(features, one, first) <==> is_first_match(features, other, first),
{
    assert forall|at: int| first_match_at(features, one, at) <==> first_match_at(
        features,
        other,
        at,
    ) by {
        if 0 <= at < features.len() {
            assert(one.contains(features[at].slug) <==> other.contains(features[at].slug));
        }
    }
}

} // verus!
