//! Link groups: the source trees that are linked into one target directory.
//!
//! A group maps each relative path to the one source tree that provides it.
//! Merging a tree is all or nothing, and linking is decided only after every
//! place under the target has been looked at. The group decides what is to
//! be done; the caller looks at the disk and carries the steps out.

use crate::path::{
    is_name, is_relative, join, join_text, lemma_join_text_injective, lemma_rel_text_injective,
    rel_text, RelPath, SEPARATOR,
};
use crate::text::{joined, views};
use vstd::prelude::*;

verus! {

/// One file of a source tree.
#[derive(Debug)]
pub struct Source {
    base: String,
    file: RelPath,
}

/// The mathematical content of a [`Source`].
pub struct SourceView {
    /// The directory that is the root of the source tree.
    pub base: Seq<char>,
    /// The names that lead from the root to the file.
    pub file: Seq<Seq<char>>,
}

impl SourceView {
    /// The text of the file's path: the file taken from inside the base.
    pub open spec fn path(self) -> Seq<char> {
        join_text(self.base, rel_text(self.file))
    }
}

impl View for Source {
    type V = SourceView;

    closed spec fn view(&self) -> SourceView {
        SourceView { base: self.base@, file: self.file@ }
    }
}

impl Source {
    /// The root of the tree that the file belongs to.
    pub fn base(&self) -> (base: &String)
        ensures
            base@ == self@.base,
    {
        &self.base
    }

    /// The place of the file inside its tree.
    pub fn file(&self) -> (file: &RelPath)
        ensures
            file@ == self@.file,
    {
        &self.file
    }

    /// The path of the file on disk.
    pub fn path(&self) -> (path: String)
        ensures
            path@ == self@.path(),
    {
        let rel = self.file.text();
        join(self.base.as_str(), rel.as_str())
    }
}

/// The views of a list of relative paths, in order.
pub open spec fn rel_views(files: Seq<RelPath>) -> Seq<Seq<Seq<char>>> {
    Seq::new(files.len(), |i: int| files[i]@)
}

/// The views of a list of sources, in order.
pub open spec fn source_views(sources: Seq<Source>) -> Seq<SourceView> {
    Seq::new(sources.len(), |i: int| sources[i]@)
}

/// The relative paths that `sources` provide, in order.
pub open spec fn files_of(sources: Seq<SourceView>) -> Seq<Seq<Seq<char>>> {
    Seq::new(sources.len(), |i: int| sources[i].file)
}

/// The members of `list` in the order of their first occurrence, each once.
pub open spec fn distinct<A>(list: Seq<A>) -> Seq<A>
    decreases list.len(),
{
    if list.len() == 0 {
        list
    } else {
        let before = distinct(list.drop_last());
        if before.contains(list.last()) {
            before
        } else {
            before.push(list.last())
        }
    }
}

/// The relative paths that `sources` already provide.
pub open spec fn provided_by(sources: Seq<SourceView>) -> spec_fn(Seq<Seq<char>>) -> bool {
    |file: Seq<Seq<char>>| files_of(sources).contains(file)
}

/// The paths among `files` that `sources` already provide: each once, in
/// the order in which `files` first names them.
pub open spec fn collisions(sources: Seq<SourceView>, files: Seq<Seq<Seq<char>>>) -> Seq<
    Seq<Seq<char>>,
> {
    distinct(files).filter(provided_by(sources))
}

/// The files of the tree rooted at `base`: one source for each path that
/// `files` names.
pub open spec fn tree(base: Seq<char>, files: Seq<Seq<Seq<char>>>) -> Seq<SourceView> {
    Seq::new(distinct(files).len(), |i: int| SourceView { base, file: distinct(files)[i] })
}

/// Whether `list` holds a path equal to `file`.
fn names(list: &[RelPath], file: &RelPath) -> (yes: bool)
    ensures
        yes == rel_views(list@).contains(file@),
{
    let mut i: usize = 0;
    while i < list.len()
        invariant
            i <= list.len(),
            forall|j: int| 0 <= j < i ==> rel_views(list@)[j] != file@,
        decreases list.len() - i,
    {
        if list[i] == *file {
            assert(rel_views(list@)[i as int] == file@);
            return true;
        }
        i += 1;
    }
    false
}

/// What was found at a place under the target.
#[derive(Debug, PartialEq, Eq)]
pub enum Found {
    /// Nothing is there.
    Nothing,
    /// A symbolic link, which points to the given path.
    Link(String),
    /// Something that is no symbolic link.
    Other,
    /// The place could not be looked at, for another reason than that
    /// nothing is there.
    Unreadable,
}

/// The mathematical content of a [`Found`].
pub enum FoundView {
    Nothing,
    Link(Seq<char>),
    Other,
    Unreadable,
}

impl View for Found {
    type V = FoundView;

    open spec fn view(&self) -> FoundView {
        match self {
            Found::Nothing => FoundView::Nothing,
            Found::Link(to) => FoundView::Link(to@),
            Found::Other => FoundView::Other,
            Found::Unreadable => FoundView::Unreadable,
        }
    }
}

impl FoundView {
    /// A symbolic link that points to `path`.
    pub open spec fn is_link_to(self, path: Seq<char>) -> bool {
        self == FoundView::Link(path)
    }

    /// What stands in the way of a link to `path`: anything but an empty
    /// place or a link that already points to `path`.
    pub open spec fn blocks(self, path: Seq<char>) -> bool {
        !(self is Nothing) && !self.is_link_to(path)
    }
}

impl Found {
    /// Whether this is a symbolic link that points to `path`.
    pub fn points_to(&self, path: &String) -> (yes: bool)
        ensures
            yes == self@.is_link_to(path@),
    {
        match self {
            Found::Link(to) => *to == *path,
            _ => false,
        }
    }

    /// Whether this is nothing at all.
    pub fn is_nothing(&self) -> (yes: bool)
        ensures
            yes == (self@ is Nothing),
    {
        match self {
            Found::Nothing => true,
            _ => false,
        }
    }
}

/// The views of a list of findings, in order.
pub open spec fn found_views(found: Seq<Found>) -> Seq<FoundView> {
    Seq::new(found.len(), |i: int| found[i]@)
}

/// What was found at the place of the source at position `at`. A place
/// that `found` does not reach counts as one that could not be looked at.
pub open spec fn found_at(found: Seq<FoundView>, at: int) -> FoundView {
    if 0 <= at < found.len() {
        found[at]
    } else {
        FoundView::Unreadable
    }
}

/// Each source with what was found at its place.
pub open spec fn seen(sources: Seq<SourceView>, found: Seq<FoundView>) -> Seq<
    (SourceView, FoundView),
> {
    Seq::new(sources.len(), |i: int| (sources[i], found_at(found, i)))
}

/// The sources whose place holds something that stands in the way.
pub open spec fn blocked() -> spec_fn((SourceView, FoundView)) -> bool {
    |s: (SourceView, FoundView)| s.1.blocks(s.0.path())
}

/// The sources whose place holds a link to the source itself.
pub open spec fn in_place() -> spec_fn((SourceView, FoundView)) -> bool {
    |s: (SourceView, FoundView)| s.1.is_link_to(s.0.path())
}

/// The relative paths of the sources that cannot be linked, in the order of
/// the sources.
pub open spec fn target_conflicts(sources: Seq<SourceView>, found: Seq<FoundView>) -> Seq<
    Seq<Seq<char>>,
> {
    let kept = seen(sources, found).filter(blocked());
    Seq::new(kept.len(), |i: int| kept[i].0.file)
}

/// The place under `target` that belongs to `file`.
pub open spec fn place(target: Seq<char>, file: Seq<Seq<char>>) -> Seq<char> {
    join_text(target, rel_text(file))
}

/// The directory that holds the place of `file` under `target`.
pub open spec fn holder(target: Seq<char>, file: Seq<Seq<char>>) -> Seq<char> {
    if file.len() > 1 {
        place(target, file.drop_last())
    } else {
        target
    }
}

/// The directories between `target` and the place of `file`, from the one
/// that holds the place up to the one directly under `target`. The target
/// itself is not among them.
pub open spec fn ancestors(target: Seq<char>, file: Seq<Seq<char>>) -> Seq<Seq<char>> {
    Seq::new((file.len() - 1) as nat, |j: int| place(target, file.take(file.len() - 1 - j)))
}

/// One step of linking: make the directory `dir` with all that leads to it,
/// then make at `at` a symbolic link that points to `to`. A link that is
/// already there is left as it is.
#[derive(Debug, PartialEq, Eq)]
pub struct Link {
    pub at: String,
    pub to: String,
    pub dir: String,
}

/// The mathematical content of a [`Link`].
pub struct LinkView {
    pub at: Seq<char>,
    pub to: Seq<char>,
    pub dir: Seq<char>,
}

impl View for Link {
    type V = LinkView;

    open spec fn view(&self) -> LinkView {
        LinkView { at: self.at@, to: self.to@, dir: self.dir@ }
    }
}

/// One step of unlinking: remove the symbolic link at `at`, then remove the
/// directories of `prune` in their order for as long as each is found
/// empty, and stop at the first that is not.
#[derive(Debug, PartialEq, Eq)]
pub struct Unlink {
    pub at: String,
    pub prune: Vec<String>,
}

/// The mathematical content of an [`Unlink`].
pub struct UnlinkView {
    pub at: Seq<char>,
    pub prune: Seq<Seq<char>>,
}

impl View for Unlink {
    type V = UnlinkView;

    open spec fn view(&self) -> UnlinkView {
        UnlinkView { at: self.at@, prune: views(self.prune@) }
    }
}

/// The views of a list of linking steps, in order.
pub open spec fn link_views(steps: Seq<Link>) -> Seq<LinkView> {
    Seq::new(steps.len(), |i: int| steps[i]@)
}

/// The views of a list of unlinking steps, in order.
pub open spec fn unlink_views(steps: Seq<Unlink>) -> Seq<UnlinkView> {
    Seq::new(steps.len(), |i: int| steps[i]@)
}

/// The step that links `source` into `target`.
pub open spec fn link_step(target: Seq<char>, source: SourceView) -> LinkView {
    LinkView {
        at: place(target, source.file),
        to: source.path(),
        dir: holder(target, source.file),
    }
}

/// The steps that link a group: one for each source, in order.
pub open spec fn link_plan(group: LinkGroupView) -> Seq<LinkView> {
    Seq::new(group.sources.len(), |i: int| link_step(group.target, group.sources[i]))
}

/// The step that removes the link of `source` from `target`.
pub open spec fn unlink_step(
    target: Seq<char>,
    source: SourceView,
    leave_orphans: bool,
) -> UnlinkView {
    UnlinkView {
        at: place(target, source.file),
        prune: if leave_orphans {
            Seq::empty()
        } else {
            ancestors(target, source.file)
        },
    }
}

/// The steps that unlink a group: one for each source whose place holds a
/// link to that source, in the order of the sources.
pub open spec fn unlink_plan(
    group: LinkGroupView,
    found: Seq<FoundView>,
    leave_orphans: bool,
) -> Seq<
    UnlinkView,
> {
    let kept = seen(group.sources, found).filter(in_place());
    Seq::new(kept.len(), |i: int| unlink_step(group.target, kept[i].0, leave_orphans))
}

/// The source trees that are linked into one target directory.
#[derive(Debug)]
pub struct LinkGroup {
    target: String,
    sources: Vec<Source>,
}

/// The mathematical content of a [`LinkGroup`].
pub struct LinkGroupView {
    /// The directory into which the files are linked.
    pub target: Seq<char>,
    /// The files, in the order in which their trees were merged.
    pub sources: Seq<SourceView>,
}

impl LinkGroupView {
    /// What holds of every group: each source has a relative path, and no
    /// two sources have the same.
    pub open spec fn valid(self) -> bool {
        &&& files_of(self.sources).no_duplicates()
        &&& forall|i: int|
            0 <= i < self.sources.len() ==> is_relative(#[trigger] self.sources[i].file)
    }
}

impl View for LinkGroup {
    type V = LinkGroupView;

    closed spec fn view(&self) -> LinkGroupView {
        LinkGroupView { target: self.target@, sources: source_views(self.sources@) }
    }
}

/// `distinct` keeps every member and lets none occur twice.
pub proof fn lemma_distinct<A>(list: Seq<A>)
    ensures
        distinct(list).no_duplicates(),
        forall|a: A| distinct(list).contains(a) <==> list.contains(a),
    decreases list.len(),
{
    if list.len() > 0 {
        let rest = list.drop_last();
        let before = distinct(rest);
        lemma_distinct(rest);
        assert forall|a: A| distinct(list).contains(a) <==> list.contains(a) by {
            assert(before.contains(a) <==> rest.contains(a));
            if list.contains(a) {
                let k = choose|k: int| 0 <= k < list.len() && list[k] == a;
                if k < list.len() - 1 {
                    assert(rest[k] == a);
                    let m = choose|m: int| 0 <= m < before.len() && before[m] == a;
                    assert(distinct(list)[m] == a);
                } else if !before.contains(a) {
                    assert(distinct(list)[before.len() as int] == a);
                }
            }
            if distinct(list).contains(a) {
                let m = choose|m: int| 0 <= m < distinct(list).len() && distinct(list)[m] == a;
                if m < before.len() {
                    assert(before[m] == a);
                    let k = choose|k: int| 0 <= k < rest.len() && rest[k] == a;
                    assert(list[k] == a);
                } else {
                    assert(list[list.len() - 1] == a);
                }
            }
        }
    }
}

impl LinkGroup {
    #[verifier::type_invariant]
    spec fn well_formed(&self) -> bool {
        self@.valid()
    }

    /// A group for `target` that holds no source yet.
    pub fn empty(target: String) -> (group: LinkGroup)
        ensures
            group@.target == target@,
            group@.sources.len() == 0,
    {
        LinkGroup { target, sources: Vec::new() }
    }

    /// The directory into which the group's files are linked.
    pub fn target(&self) -> (target: &String)
        ensures
            target@ == self@.target,
    {
        &self.target
    }

    /// The group's files, in the order in which their trees were merged. No
    /// two of them have the same relative path.
    pub fn sources(&self) -> (sources: &Vec<Source>)
        ensures
            source_views(sources@) == self@.sources,
            self@.valid(),
    {
        proof {
            use_type_invariant(self);
        }
        &self.sources
    }

    /// Whether one of the group's sources has the relative path `file`.
    fn provides(&self, file: &RelPath) -> (yes: bool)
        ensures
            yes == files_of(self@.sources).contains(file@),
    {
        let mut i: usize = 0;
        while i < self.sources.len()
            invariant
                i <= self.sources.len(),
                forall|j: int| 0 <= j < i ==> files_of(self@.sources)[j] != file@,
            decreases self.sources.len() - i,
        {
            if self.sources[i].file == *file {
                assert(files_of(self@.sources)[i as int] == file@);
                return true;
            }
            i += 1;
        }
        false
    }

    /// Merges the tree rooted at `base`, whose files are `files`, into the
    /// group. Where the group already provides one of the paths, nothing is
    /// merged: the group stays as it was, and the paths in question are
    /// returned. A path that `files` names twice counts once.
    pub fn add_source(&mut self, base: &str, files: &[RelPath]) -> (merged: Result<
        (),
        Vec<RelPath>,
    >)
        ensures
            final(self)@.target == old(self)@.target,
            final(self)@.valid(),
            match merged {
                Ok(_) => {
                    &&& collisions(old(self)@.sources, rel_views(files@)).len() == 0
                    &&& final(self)@.sources == old(self)@.sources + tree(
                        base@,
                        rel_views(files@),
                    )
                },
                Err(conflicts) => {
                    &&& conflicts@.len() > 0
                    &&& rel_views(conflicts@) == collisions(old(self)@.sources, rel_views(files@))
                    &&& final(self)@ == old(self)@
                },
            },
    {
        proof {
            use_type_invariant(&*self);
        }
        let named = first_occurrences(files);
        let ghost taken = provided_by(self@.sources);
        let mut conflicts: Vec<RelPath> = Vec::new();
        let mut added: Vec<Source> = Vec::new();
        let mut i: usize = 0;
        assert(rel_views(named@).take(0).filter(taken) =~= Seq::<Seq<Seq<char>>>::empty()) by {
            reveal(Seq::filter);
        }
        while i < named.len()
            invariant
                i <= named.len(),
                taken == provided_by(self@.sources),
                rel_views(conflicts@) == rel_views(named@).take(i as int).filter(taken),
                conflicts@.len() == 0 ==> source_views(added@) == tree(
                    base@,
                    rel_views(files@),
                ).take(i as int),
                rel_views(named@) == distinct(rel_views(files@)),
                forall|j: int|
                    0 <= j < added@.len() ==> is_relative(#[trigger] source_views(added@)[j].file),
            decreases named.len() - i,
        {
            let ghost seen = rel_views(named@).take(i as int);
            proof {
                assert(rel_views(named@).take(i + 1) =~= seen.push(named@[i as int]@));
                Seq::lemma_filter_push(seen, named@[i as int]@, taken);
            }
            let ghost before = rel_views(conflicts@);
            if self.provides(&named[i]) {
                conflicts.push(named[i].clone());
                assert(rel_views(conflicts@) =~= before.push(named@[i as int]@));
            } else {
                let ghost planted = source_views(added@);
                added.push(Source { base: base.to_owned(), file: named[i].clone() });
                assert forall|j: int| 0 <= j < added@.len() implies is_relative(
                    #[trigger] source_views(added@)[j].file,
                ) by {
                    if j < planted.len() {
                        assert(source_views(added@)[j] == planted[j]);
                    }
                }
                assert(conflicts@.len() == 0 ==> source_views(added@) =~= tree(
                    base@,
                    rel_views(files@),
                ).take(i + 1));
            }
            i += 1;
        }
        assert(rel_views(named@).take(i as int) =~= rel_views(named@));
        if conflicts.len() > 0 {
            return Err(conflicts);
        }
        // The sources are taken out and put back whole, so that the group
        // is never seen half merged.
        let ghost before = self@;
        let mut all: Vec<Source> = Vec::new();
        std::mem::swap(&mut self.sources, &mut all);
        proof {
            let old_files = files_of(before.sources);
            let new_files = files_of(source_views(added@));
            lemma_distinct(rel_views(files@));
            assert(source_views(added@) =~= tree(base@, rel_views(files@)));
            assert(new_files =~= distinct(rel_views(files@)));
            assert forall|a: int, b: int|
                0 <= a < old_files.len() && 0 <= b < new_files.len() implies old_files[a]
                != new_files[b] by {
                if old_files[a] == new_files[b] {
                    assert(taken(rel_views(named@)[b]));
                    rel_views(named@).lemma_filter_contains(taken, b);
                }
            }
            vstd::seq_lib::lemma_no_dup_in_concat(old_files, new_files);
            assert(files_of(before.sources + source_views(added@)) =~= old_files + new_files);
            assert(source_views(all@ + added@) =~= before.sources + source_views(added@));
            let grown = before.sources + source_views(added@);
            assert forall|i: int| 0 <= i < grown.len() implies is_relative(
                #[trigger] grown[i].file,
            ) by {
                if i < before.sources.len() {
                    assert(grown[i] == before.sources[i]);
                } else {
                    assert(grown[i] == source_views(added@)[i - before.sources.len()]);
                }
            }
        }
        all.append(&mut added);
        std::mem::swap(&mut self.sources, &mut all);
        Ok(())
    }

    /// The place under the target of each source, in order: where the
    /// caller has to look before the group can be linked or unlinked.
    pub fn places(&self) -> (places: Vec<String>)
        ensures
            views(places@) == Seq::new(
                self@.sources.len(),
                |i: int| place(self@.target, self@.sources[i].file),
            ),
            views(places@).no_duplicates(),
    {
        proof {
            use_type_invariant(self);
        }
        let mut places: Vec<String> = Vec::new();
        let mut i: usize = 0;
        while i < self.sources.len()
            invariant
                i <= self.sources.len(),
                views(places@) == Seq::new(
                    i as nat,
                    |k: int| place(self@.target, self@.sources[k].file),
                ),
                self@.valid(),
            decreases self.sources.len() - i,
        {
            let ghost done = views(places@);
            let rel = self.sources[i].file.text();
            places.push(join(self.target.as_str(), rel.as_str()));
            assert(self@.sources[i as int] == self.sources@[i as int]@);
            assert(views(places@) =~= done.push(
                place(self@.target, self@.sources[i as int].file),
            ));
            assert(views(places@) =~= Seq::new(
                (i + 1) as nat,
                |k: int| place(self@.target, self@.sources[k].file),
            ));
            i += 1;
        }
        proof {
            let all = views(places@);
            assert forall|a: int, b: int|
                0 <= a < all.len() && 0 <= b < all.len() && a != b implies all[a] != all[b] by {
                if all[a] == all[b] {
                    assert(is_relative(self@.sources[a].file));
                    assert(is_relative(self@.sources[b].file));
                    lemma_place_injective(
                        self@.target,
                        self@.sources[a].file,
                        self@.sources[b].file,
                    );
                    assert(files_of(self@.sources)[a] == files_of(self@.sources)[b]);
                }
            }
        }
        places
    }

    /// The relative paths of the sources that cannot be linked, where
    /// `found` tells for each source, in order, what its place holds. A place
    /// is in the way if it holds anything but a link to the source itself.
    pub fn target_conflicts(&self, found: &[Found]) -> (conflicts: Vec<RelPath>)
        ensures
            rel_views(conflicts@) == target_conflicts(self@.sources, found_views(found@)),
    {
        let ghost all = seen(self@.sources, found_views(found@));
        let mut conflicts: Vec<RelPath> = Vec::new();
        let mut i: usize = 0;
        assert(all.take(0).filter(blocked()) =~= Seq::<(SourceView, FoundView)>::empty()) by {
            reveal(Seq::filter);
        }
        while i < self.sources.len()
            invariant
                i <= self.sources.len(),
                all == seen(self@.sources, found_views(found@)),
                rel_views(conflicts@) == Seq::new(
                    all.take(i as int).filter(blocked()).len(),
                    |k: int| all.take(i as int).filter(blocked())[k].0.file,
                ),
            decreases self.sources.len() - i,
        {
            proof {
                assert(all.take(i + 1) =~= all.take(i as int).push(all[i as int]));
                Seq::lemma_filter_push(all.take(i as int), all[i as int], blocked());
            }
            let ghost before = rel_views(conflicts@);
            let path = self.sources[i].path();
            let free = if i < found.len() {
                found[i].is_nothing() || found[i].points_to(&path)
            } else {
                false
            };
            if !free {
                conflicts.push(self.sources[i].file.clone());
                assert(rel_views(conflicts@) =~= before.push(self@.sources[i as int].file));
            }
            i += 1;
        }
        assert(all.take(i as int) =~= all);
        conflicts
    }

    /// Decides how to link the group, where `found` tells for each source,
    /// in order, what its place holds. If any place holds something that is
    /// in the way, nothing is to be done, and the relative paths of all
    /// such sources are returned. Else the steps are returned, one for each
    /// source.
    pub fn link(&self, found: &[Found]) -> (steps: Result<Vec<Link>, Vec<RelPath>>)
        ensures
            match steps {
                Ok(steps) => {
                    &&& target_conflicts(self@.sources, found_views(found@)).len() == 0
                    &&& link_views(steps@) == link_plan(self@)
                },
                Err(conflicts) => {
                    &&& conflicts@.len() > 0
                    &&& rel_views(conflicts@) == target_conflicts(
                        self@.sources,
                        found_views(found@),
                    )
                },
            },
    {
        let conflicts = self.target_conflicts(found);
        if conflicts.len() > 0 {
            return Err(conflicts);
        }
        let mut steps: Vec<Link> = Vec::new();
        let mut i: usize = 0;
        while i < self.sources.len()
            invariant
                i <= self.sources.len(),
                link_views(steps@) == link_plan(self@).take(i as int),
            decreases self.sources.len() - i,
        {
            let source = &self.sources[i];
            let rel = source.file.text();
            let dir = match source.file.parent() {
                Some(parent) => {
                    let rel = parent.text();
                    join(self.target.as_str(), rel.as_str())
                },
                None => self.target.clone(),
            };
            let ghost done = link_views(steps@);
            let at = join(self.target.as_str(), rel.as_str());
            steps.push(Link { at, to: source.path(), dir });
            assert(self@.sources[i as int] == source@);
            assert(link_views(steps@) =~= done.push(link_step(self@.target, source@)));
            assert(link_views(steps@) =~= link_plan(self@).take(i + 1));
            i += 1;
        }
        assert(link_plan(self@).take(i as int) =~= link_plan(self@));
        Ok(steps)
    }

    /// Decides how to unlink the group, where `found` tells for each source,
    /// in order, what its place holds. Only a link that points to the source
    /// itself is removed; any other place is left alone, and is no conflict.
    /// Unless `leave_orphans` is set, the directories between a removed link
    /// and the target are to be removed as far as they are then empty.
    pub fn unlink(&self, found: &[Found], leave_orphans: bool) -> (steps: Result<
        Vec<Unlink>,
        Vec<RelPath>,
    >)
        ensures
            steps matches Ok(steps) && unlink_views(steps@) == unlink_plan(
                self@,
                found_views(found@),
                leave_orphans,
            ),
    {
        let ghost all = seen(self@.sources, found_views(found@));
        let mut steps: Vec<Unlink> = Vec::new();
        let mut i: usize = 0;
        assert(all.take(0).filter(in_place()) =~= Seq::<(SourceView, FoundView)>::empty()) by {
            reveal(Seq::filter);
        }
        while i < self.sources.len()
            invariant
                i <= self.sources.len(),
                all == seen(self@.sources, found_views(found@)),
                unlink_views(steps@) == Seq::new(
                    all.take(i as int).filter(in_place()).len(),
                    |k: int|
                        unlink_step(
                            self@.target,
                            all.take(i as int).filter(in_place())[k].0,
                            leave_orphans,
                        ),
                ),
            decreases self.sources.len() - i,
        {
            proof {
                assert(all.take(i + 1) =~= all.take(i as int).push(all[i as int]));
                Seq::lemma_filter_push(all.take(i as int), all[i as int], in_place());
            }
            let ghost before = unlink_views(steps@);
            let source = &self.sources[i];
            let path = source.path();
            if i < found.len() && found[i].points_to(&path) {
                let rel = source.file.text();
                let prune: Vec<String> = if leave_orphans {
                    Vec::new()
                } else {
                    above(self.target.as_str(), &source.file)
                };
                assert(views(prune@) =~= unlink_step(
                    self@.target,
                    source@,
                    leave_orphans,
                ).prune);
                steps.push(Unlink { at: join(self.target.as_str(), rel.as_str()), prune });
                assert(self@.sources[i as int] == source@);
                assert(unlink_views(steps@) =~= before.push(
                    unlink_step(self@.target, self@.sources[i as int], leave_orphans),
                ));
            }
            i += 1;
        }
        assert(all.take(i as int) =~= all);
        Ok(steps)
    }
}

/// The members of `files` in the order of their first occurrence, each once.
fn first_occurrences(files: &[RelPath]) -> (named: Vec<RelPath>)
    ensures
        rel_views(named@) == distinct(rel_views(files@)),
{
    let mut named: Vec<RelPath> = Vec::new();
    let mut i: usize = 0;
    assert(rel_views(files@).take(0) =~= Seq::<Seq<Seq<char>>>::empty());
    while i < files.len()
        invariant
            i <= files.len(),
            rel_views(named@) == distinct(rel_views(files@).take(i as int)),
        decreases files.len() - i,
    {
        let ghost seen = rel_views(files@).take(i as int);
        assert(rel_views(files@).take(i + 1).drop_last() =~= seen);
        let ghost before = rel_views(named@);
        if !names(named.as_slice(), &files[i]) {
            named.push(files[i].clone());
            assert(rel_views(named@) =~= before.push(files@[i as int]@));
        }
        i += 1;
    }
    assert(rel_views(files@).take(i as int) =~= rel_views(files@));
    named
}

/// The directories between `target` and the place of `file`, nearest to
/// the file first.
fn above(target: &str, file: &RelPath) -> (dirs: Vec<String>)
    ensures
        views(dirs@) == ancestors(target@, file@),
{
    let depth = file.parts().len();
    let mut dirs: Vec<String> = Vec::new();
    let mut next = file.parent();
    while next.is_some()
        invariant
            depth == file@.len(),
            dirs@.len() < depth,
            next matches Some(dir) ==> dirs@.len() < depth - 1 && dir@ == file@.take(
                depth - 1 - dirs@.len(),
            ),
            next is None ==> dirs@.len() == depth - 1,
            views(dirs@) == ancestors(target@, file@).take(dirs@.len() as int),
        decreases depth - dirs@.len(),
    {
        let dir = next.unwrap();
        let rel = dir.text();
        let ghost done = views(dirs@);
        let ghost left = depth - 1 - dirs@.len();
        dirs.push(join(target, rel.as_str()));
        next = dir.parent();
        proof {
            assert(file@.take(left).drop_last() =~= file@.take(left - 1));
            assert(views(dirs@) =~= done.push(place(target@, file@.take(left))));
            assert(views(dirs@) =~= ancestors(target@, file@).take(
                dirs@.len() as int,
            ));
        }
    }
    assert(ancestors(target@, file@).take(dirs@.len() as int) =~= ancestors(target@, file@));
    dirs
}

/// Every place holds a link to its own source, as it does once the group
/// has been linked.
pub open spec fn all_in_place(sources: Seq<SourceView>, found: Seq<FoundView>) -> bool {
    forall|i: int| 0 <= i < sources.len() ==> found_at(found, i).is_link_to(sources[i].path())
}

/// A filter keeps a list whole when all its members pass, and keeps nothing
/// when none does.
pub proof fn lemma_filter_all_or_none<A>(list: Seq<A>, pass: spec_fn(A) -> bool)
    ensures
        (forall|i: int| 0 <= i < list.len() ==> pass(list[i])) ==> list.filter(pass) == list,
        (forall|i: int| 0 <= i < list.len() ==> !pass(list[i])) ==> list.filter(pass).len() == 0,
    decreases list.len(),
{
    reveal(Seq::filter);
    if list.len() > 0 {
        lemma_filter_all_or_none(list.drop_last(), pass);
        if forall|i: int| 0 <= i < list.len() ==> pass(list[i]) {
            assert forall|i: int| 0 <= i < list.drop_last().len() implies pass(
                list.drop_last()[i],
            ) by {
                assert(list.drop_last()[i] == list[i]);
            }
            assert(list.drop_last().push(list.last()) =~= list);
        }
        if forall|i: int| 0 <= i < list.len() ==> !pass(list[i]) {
            assert forall|i: int| 0 <= i < list.drop_last().len() implies !pass(
                list.drop_last()[i],
            ) by {
                assert(list.drop_last()[i] == list[i]);
            }
        }
    }
}

/// Linking is idempotent in what it decides: where every place already
/// holds the link to its source, nothing is in the way, so a group that has
/// just been linked can be linked again, with the same steps.
pub proof fn lemma_links_in_place_are_accepted(group: LinkGroupView, found: Seq<FoundView>)
    requires
        all_in_place(group.sources, found),
    ensures
        target_conflicts(group.sources, found).len() == 0,
{
    let all = seen(group.sources, found);
    assert forall|i: int| 0 <= i < all.len() implies !blocked()(all[i]) by {
        assert(found_at(found, i).is_link_to(group.sources[i].path()));
    }
    lemma_filter_all_or_none(all, blocked());
}

/// A place that holds anything but a link to its source, or nothing, is
/// reported: the relative path of its source is among the conflicts, so the
/// group is not linked.
pub proof fn lemma_blocked_place_is_reported(
    group: LinkGroupView,
    found: Seq<FoundView>,
    at: int,
)
    requires
        0 <= at < group.sources.len(),
        found_at(found, at).blocks(group.sources[at].path()),
    ensures
        target_conflicts(group.sources, found).contains(group.sources[at].file),
{
    let all = seen(group.sources, found);
    let kept = all.filter(blocked());
    assert(blocked()(all[at]));
    all.lemma_filter_contains(blocked(), at);
    let k = choose|k: int| 0 <= k < kept.len() && kept[k] == all[at];
    assert(target_conflicts(group.sources, found)[k] == group.sources[at].file);
}

/// Where linking meets no conflict, no place holds anything that is in the
/// way of its source.
pub proof fn lemma_no_conflict(sources: Seq<SourceView>, found: Seq<FoundView>)
    requires
        target_conflicts(sources, found).len() == 0,
    ensures
        forall|i: int|
            0 <= i < sources.len() ==> !(#[trigger] found_at(found, i)).blocks(sources[i].path()),
{
    let all = seen(sources, found);
    assert forall|i: int| 0 <= i < sources.len() implies !(#[trigger] found_at(found, i)).blocks(
        sources[i].path(),
    ) by {
        if found_at(found, i).blocks(sources[i].path()) {
            assert(blocked()(all[i]));
            all.lemma_filter_contains(blocked(), i);
        }
    }
}

/// Unlinking undoes linking in what it decides: where every place holds the
/// link to its source, there is one step for each source, at the place
/// where linking put the link. With `leave_orphans` no directory is to be
/// removed; without it, those between the link and the target are.
pub proof fn lemma_unlink_releases_links_in_place(
    group: LinkGroupView,
    found: Seq<FoundView>,
    leave_orphans: bool,
)
    requires
        all_in_place(group.sources, found),
    ensures
        unlink_plan(group, found, leave_orphans).len() == link_plan(group).len(),
        forall|i: int|
            0 <= i < group.sources.len() ==> {
                let step = #[trigger] unlink_plan(group, found, leave_orphans)[i];
                &&& step.at == link_plan(group)[i].at
                &&& leave_orphans ==> step.prune.len() == 0
                &&& !leave_orphans ==> step.prune == ancestors(
                    group.target,
                    group.sources[i].file,
                )
            },
{
    let all = seen(group.sources, found);
    assert forall|i: int| 0 <= i < all.len() implies in_place()(all[i]) by {
        assert(found_at(found, i).is_link_to(group.sources[i].path()));
    }
    lemma_filter_all_or_none(all, in_place());
}

/// Unlinking touches nothing that it does not own: where no place holds a
/// link to its own source, there is no step at all.
pub proof fn lemma_unlink_leaves_foreign_places(
    group: LinkGroupView,
    found: Seq<FoundView>,
    leave_orphans: bool,
)
    requires
        forall|i: int|
            0 <= i < group.sources.len() ==> !found_at(found, i).is_link_to(
                group.sources[i].path(),
            ),
    ensures
        unlink_plan(group, found, leave_orphans).len() == 0,
{
    let all = seen(group.sources, found);
    assert forall|i: int| 0 <= i < all.len() implies !in_place()(all[i]) by {
        assert(!found_at(found, i).is_link_to(group.sources[i].path()));
    }
    lemma_filter_all_or_none(all, in_place());
}

/// The text of a relative path is not empty.
pub proof fn lemma_rel_text_not_empty(file: Seq<Seq<char>>)
    requires
        is_relative(file),
    ensures
        rel_text(file).len() > 0,
{
    assert(is_name(file.last()));
    if file.len() > 1 {
        assert(rel_text(file) == joined(file.drop_last(), SEPARATOR).push(SEPARATOR)
            + file.last());
    }
}

/// Pruning stays strictly below the target and above the link: each
/// directory that may be removed is the place of a beginning of the file's
/// path that is neither empty nor the whole path, so its text begins with
/// the target's and is longer.
pub proof fn lemma_prune_stays_below_target(target: Seq<char>, file: Seq<Seq<char>>, at: int)
    requires
        is_relative(file),
        0 <= at < ancestors(target, file).len(),
    ensures
        ({
            let dir = ancestors(target, file)[at];
            let depth = file.len() - 1 - at;
            &&& 1 <= depth < file.len()
            &&& dir == place(target, file.take(depth))
            &&& dir.len() > target.len()
            &&& dir.take(target.len() as int) == target
        }),
{
    let depth = file.len() - 1 - at;
    let part = file.take(depth);
    assert forall|i: int| 0 <= i < part.len() implies is_name(#[trigger] part[i]) by {
        assert(part[i] == file[i]);
    }
    lemma_rel_text_not_empty(part);
    let dir = place(target, part);
    assert(dir.take(target.len() as int) =~= target);
}

/// Under one target, each relative path has a place of its own.
pub proof fn lemma_place_injective(target: Seq<char>, a: Seq<Seq<char>>, b: Seq<Seq<char>>)
    requires
        is_relative(a),
        is_relative(b),
        place(target, a) == place(target, b),
    ensures
        a == b,
{
    lemma_join_text_injective(target, rel_text(a), rel_text(b));
    lemma_rel_text_injective(a, b);
}

} // verus!
