//! A model of the tree below a target directory, and of what carrying out
//! the steps of a link group does to it.
//!
//! The library hands out steps and leaves the disk to its caller. This
//! module says what the steps mean, so that what linking and unlinking
//! achieve together can be stated and proved. In the model a place below
//! the target is known by its relative path, which is sound because under
//! one target each relative path has a place of its own. Every directory on
//! the way to an entry is a plain directory, and nothing but the steps
//! changes the tree.

use crate::link::{
    all_in_place, files_of, found_at, lemma_links_in_place_are_accepted, lemma_no_conflict,
    target_conflicts, unlink_step, FoundView, LinkGroupView, SourceView,
};
use crate::path::is_relative;
use vstd::prelude::*;

verus! {

/// What stands at a place.
pub enum Node {
    /// A directory.
    Dir,
    /// A symbolic link, which points to the given path.
    Link(Seq<char>),
    /// Anything else.
    Other,
}

/// The tree below a target: what stands at each relative path. The target
/// itself is no entry of its tree.
pub type Tree = Map<Seq<Seq<char>>, Node>;

/// `dir` is a directory on the way from the target to `file`: a beginning
/// of the path that is neither empty nor the whole path.
pub open spec fn leads_to(dir: Seq<Seq<char>>, file: Seq<Seq<char>>) -> bool {
    1 <= dir.len() < file.len() && file.take(dir.len() as int) == dir
}

/// `child` stands directly in `dir`.
pub open spec fn stands_in(child: Seq<Seq<char>>, dir: Seq<Seq<char>>) -> bool {
    child.len() == dir.len() + 1 && child.drop_last() == dir
}

/// Something stands in `dir`.
pub open spec fn has_child(tree: Tree, dir: Seq<Seq<char>>) -> bool {
    exists|child: Seq<Seq<char>>| #[trigger] tree.contains_key(child) && stands_in(child, dir)
}

/// Every entry has a name, and every directory on the way to an entry is
/// there, as a directory.
pub open spec fn is_tree(tree: Tree) -> bool {
    &&& forall|key: Seq<Seq<char>>| #[trigger] tree.contains_key(key) ==> key.len() >= 1
    &&& forall|key: Seq<Seq<char>>, dir: Seq<Seq<char>>|
        #![trigger tree.contains_key(key), leads_to(dir, key)]
        tree.contains_key(key) && leads_to(dir, key) ==> tree.contains_key(dir) && tree[dir] is Dir
}

/// What is found at the place of `file`. A place cannot be looked at when
/// something on the way to it is no directory.
pub open spec fn look(tree: Tree, file: Seq<Seq<char>>) -> FoundView {
    if exists|dir: Seq<Seq<char>>|
        #[trigger] leads_to(dir, file) && tree.contains_key(dir) && !(tree[dir] is Dir) {
        FoundView::Unreadable
    } else if !tree.contains_key(file) {
        FoundView::Nothing
    } else {
        match tree[file] {
            Node::Link(to) => FoundView::Link(to),
            _ => FoundView::Other,
        }
    }
}

/// What is found at the place of each source, in order.
pub open spec fn looks(tree: Tree, sources: Seq<SourceView>) -> Seq<FoundView> {
    Seq::new(sources.len(), |i: int| look(tree, sources[i].file))
}

/// The tree after the step that links `source`: the directories on the way
/// to its place are made where they are missing, and then the link is made
/// unless something stands at its place.
pub open spec fn made(tree: Tree, source: SourceView) -> Tree {
    Map::new(
        |key: Seq<Seq<char>>|
            tree.contains_key(key) || key == source.file || leads_to(key, source.file),
        |key: Seq<Seq<char>>|
            if tree.contains_key(key) {
                tree[key]
            } else if key == source.file {
                Node::Link(source.path())
            } else {
                Node::Dir
            },
    )
}

/// The tree after the steps that link `sources`, taken in order.
pub open spec fn linked(tree: Tree, sources: Seq<SourceView>) -> Tree
    decreases sources.len(),
{
    if sources.len() == 0 {
        tree
    } else {
        made(linked(tree, sources.drop_last()), sources.last())
    }
}

/// `key` is the relative path of one of the sources.
pub open spec fn names_file(sources: Seq<SourceView>, key: Seq<Seq<char>>) -> bool {
    exists|i: int| 0 <= i < sources.len() && #[trigger] sources[i].file == key
}

/// `key` is a directory on the way to one of the sources.
pub open spec fn on_the_way(sources: Seq<SourceView>, key: Seq<Seq<char>>) -> bool {
    exists|i: int| 0 <= i < sources.len() && leads_to(key, #[trigger] sources[i].file)
}

/// No source has its place where another needs a directory.
pub open spec fn prefix_free(sources: Seq<SourceView>) -> bool {
    forall|i: int, j: int|
        0 <= i < sources.len() && 0 <= j < sources.len() ==> !leads_to(
            #[trigger] sources[i].file,
            #[trigger] sources[j].file,
        )
}

/// Linking only adds: the entries afterwards are those from before, the
/// places of the sources and the directories on the way to them, and what
/// was there before is unchanged. A directory that had to be made is a
/// directory.
pub proof fn lemma_linked(tree: Tree, sources: Seq<SourceView>)
    ensures
        forall|key: Seq<Seq<char>>| #[trigger]
            linked(tree, sources).contains_key(key) <==> tree.contains_key(key) || names_file(
                sources,
                key,
            ) || on_the_way(sources, key),
        forall|key: Seq<Seq<char>>|
            tree.contains_key(key) ==> #[trigger] linked(tree, sources)[key] == tree[key],
        forall|key: Seq<Seq<char>>|
            !tree.contains_key(key) && !names_file(sources, key) && on_the_way(sources, key)
                ==> #[trigger] linked(tree, sources)[key] is Dir,
    decreases sources.len(),
{
    if sources.len() > 0 {
        let rest = sources.drop_last();
        let last = sources.last();
        let before = linked(tree, rest);
        lemma_linked(tree, rest);
        assert forall|key: Seq<Seq<char>>| #[trigger]
            linked(tree, sources).contains_key(key) <==> tree.contains_key(key) || names_file(
                sources,
                key,
            ) || on_the_way(sources, key) by {
            if names_file(rest, key) {
                let i = choose|i: int| 0 <= i < rest.len() && #[trigger] rest[i].file == key;
                assert(sources[i].file == key);
            }
            if on_the_way(rest, key) {
                let i = choose|i: int|
                    0 <= i < rest.len() && leads_to(key, #[trigger] rest[i].file);
                assert(leads_to(key, sources[i].file));
            }
            if key == last.file {
                assert(sources[sources.len() - 1].file == key);
            }
            if leads_to(key, last.file) {
                assert(leads_to(key, sources[sources.len() - 1].file));
            }
            if names_file(sources, key) {
                let i = choose|i: int| 0 <= i < sources.len() && #[trigger] sources[i].file == key;
                if i < rest.len() {
                    assert(rest[i].file == key);
                }
            }
            if on_the_way(sources, key) {
                let i = choose|i: int|
                    0 <= i < sources.len() && leads_to(key, #[trigger] sources[i].file);
                if i < rest.len() {
                    assert(leads_to(key, rest[i].file));
                }
            }
        }
        assert forall|key: Seq<Seq<char>>|
            !tree.contains_key(key) && !names_file(sources, key) && on_the_way(
                sources,
                key,
            ) implies #[trigger] linked(tree, sources)[key] is Dir by {
            assert(key != last.file) by {
                assert(sources[sources.len() - 1].file == last.file);
            }
            if names_file(rest, key) {
                let i = choose|i: int| 0 <= i < rest.len() && #[trigger] rest[i].file == key;
                assert(sources[i].file == key);
            }
            let i = choose|i: int|
                0 <= i < sources.len() && leads_to(key, #[trigger] sources[i].file);
            if i < rest.len() {
                assert(leads_to(key, rest[i].file));
            }
            if before.contains_key(key) {
                assert(on_the_way(rest, key));
                assert(before[key] is Dir);
            } else {
                assert(leads_to(key, last.file));
            }
            assert(made(before, last).contains_key(key));
        }
    }
}

/// Where no source is in the way of another, linking puts at each place
/// that was empty the link to its source.
pub proof fn lemma_linked_files(tree: Tree, sources: Seq<SourceView>)
    requires
        files_of(sources).no_duplicates(),
        prefix_free(sources),
    ensures
        forall|i: int|
            0 <= i < sources.len() && !tree.contains_key(sources[i].file) ==> linked(
                tree,
                sources,
            )[#[trigger] sources[i].file] == Node::Link(sources[i].path()),
    decreases sources.len(),
{
    if sources.len() > 0 {
        let rest = sources.drop_last();
        let last = sources.last();
        let before = linked(tree, rest);
        assert forall|a: int, b: int| 0 <= a < rest.len() && 0 <= b < rest.len() implies !leads_to(
            #[trigger] rest[a].file,
            #[trigger] rest[b].file,
        ) by {
            assert(!leads_to(sources[a].file, sources[b].file));
        }
        assert forall|a: int, b: int|
            0 <= a < rest.len() && 0 <= b < rest.len() && a != b implies files_of(rest)[a]
            != files_of(rest)[b] by {
            assert(files_of(sources)[a] != files_of(sources)[b]);
        }
        lemma_linked_files(tree, rest);
        lemma_linked(tree, rest);
        assert forall|i: int|
            0 <= i < sources.len() && !tree.contains_key(sources[i].file) implies linked(
            tree,
            sources,
        )[#[trigger] sources[i].file] == Node::Link(sources[i].path()) by {
            let key = sources[i].file;
            if i < rest.len() {
                assert(rest[i].file == key);
                assert(names_file(rest, key));
                assert(before.contains_key(key));
                assert(before[rest[i].file] == Node::Link(rest[i].path()));
            } else {
                if names_file(rest, key) {
                    let j = choose|j: int| 0 <= j < rest.len() && #[trigger] rest[j].file == key;
                    assert(files_of(sources)[j] == files_of(sources)[i]);
                }
                if on_the_way(rest, key) {
                    let j = choose|j: int|
                        0 <= j < rest.len() && leads_to(key, #[trigger] rest[j].file);
                    assert(leads_to(sources[i].file, sources[j].file));
                }
                assert(!before.contains_key(key));
            }
        }
    }
}

/// Linking is idempotent. When a group whose sources are not in each
/// other's way has been linked without conflict, every place holds the link
/// to its source, so that linking once more meets no conflict either, and
/// carrying out the steps once more changes nothing.
pub proof fn lemma_link_twice(tree: Tree, group: LinkGroupView)
    requires
        group.valid(),
        prefix_free(group.sources),
        target_conflicts(group.sources, looks(tree, group.sources)).len() == 0,
    ensures
        ({
            let after = linked(tree, group.sources);
            &&& all_in_place(group.sources, looks(after, group.sources))
            &&& target_conflicts(group.sources, looks(after, group.sources)).len() == 0
            &&& linked(after, group.sources) == after
        }),
{
    let sources = group.sources;
    let after = linked(tree, sources);
    lemma_linked(tree, sources);
    lemma_linked_files(tree, sources);
    lemma_no_conflict(sources, looks(tree, sources));
    assert forall|i: int| 0 <= i < sources.len() implies found_at(
        looks(after, sources),
        i,
    ).is_link_to(sources[i].path()) by {
        let file = sources[i].file;
        let before = found_at(looks(tree, sources), i);
        assert(before == look(tree, file));
        assert(!before.blocks(sources[i].path()));
        assert forall|dir: Seq<Seq<char>>| #[trigger]
            leads_to(dir, file) && after.contains_key(dir) implies after[dir] is Dir by {
            if !tree.contains_key(dir) {
                if names_file(sources, dir) {
                    let j = choose|j: int|
                        0 <= j < sources.len() && #[trigger] sources[j].file == dir;
                    assert(leads_to(sources[j].file, sources[i].file));
                }
                assert(on_the_way(sources, dir));
            }
        }
        assert(names_file(sources, file));
        assert(after.contains_key(file));
        assert(look(after, file) == FoundView::Link(sources[i].path()));
    }
    lemma_links_in_place_are_accepted(group, looks(after, sources));
    lemma_linked(after, sources);
    assert(linked(after, sources) =~= after);
}

/// The tree after the walk that prunes: the directories on the way to
/// `file` are taken from the one at `depth` names upward, each is removed
/// if nothing stands in it, and the walk ends at the first that is kept.
/// From the directory that holds the file, these are the directories that
/// a step lists to prune, in their order.
pub open spec fn pruned(tree: Tree, file: Seq<Seq<char>>, depth: int) -> Tree
    decreases depth,
{
    if depth <= 0 {
        tree
    } else {
        let dir = file.take(depth);
        if tree.contains_key(dir) && !has_child(tree, dir) {
            pruned(tree.remove(dir), file, depth - 1)
        } else {
            tree
        }
    }
}

/// The tree after a step that removes the link at the place of `file` and
/// then walks through `walk` directories above it.
pub open spec fn unmade(tree: Tree, file: Seq<Seq<char>>, walk: int) -> Tree {
    pruned(tree.remove(file), file, if walk > 0 { file.len() - 1 } else { 0 })
}

/// The tree after the steps that unlink the first `count` sources of
/// `group`, where `found` is what was found at their places beforehand:
/// there is a step for a source where its place held the link to it, and
/// the step walks through the directories that it is to prune.
pub open spec fn unlinked(
    tree: Tree,
    group: LinkGroupView,
    found: Seq<FoundView>,
    leave_orphans: bool,
    count: int,
) -> Tree
    decreases count,
{
    if count <= 0 {
        tree
    } else {
        let before = unlinked(tree, group, found, leave_orphans, count - 1);
        let source = group.sources[count - 1];
        if found_at(found, count - 1).is_link_to(source.path()) {
            let step = unlink_step(group.target, source, leave_orphans);
            unmade(before, source.file, step.prune.len() as int)
        } else {
            before
        }
    }
}

/// What the pruning walk leaves: a tree again, in which nothing has been
/// added or changed, and from which only directories on the way to `file`
/// are gone. Each of those that is still there has something in it, and
/// no other directory has lost what stood in it.
pub proof fn lemma_pruned(tree: Tree, file: Seq<Seq<char>>, depth: int)
    requires
        is_tree(tree),
        0 <= depth < file.len(),
        !tree.contains_key(file),
        forall|dir: Seq<Seq<char>>| #[trigger]
            leads_to(dir, file) && dir.len() > depth ==> !tree.contains_key(dir),
        depth >= 1 ==> tree.contains_key(file.take(depth)),
    ensures
        is_tree(pruned(tree, file, depth)),
        forall|key: Seq<Seq<char>>| #[trigger]
            pruned(tree, file, depth).contains_key(key) ==> tree.contains_key(key) && pruned(
                tree,
                file,
                depth,
            )[key] == tree[key],
        forall|key: Seq<Seq<char>>|
            tree.contains_key(key) && !(#[trigger] pruned(tree, file, depth).contains_key(key))
                ==> leads_to(key, file),
        forall|dir: Seq<Seq<char>>| #[trigger]
            leads_to(dir, file) && pruned(tree, file, depth).contains_key(dir) ==> has_child(
                pruned(tree, file, depth),
                dir,
            ),
        forall|dir: Seq<Seq<char>>|
            dir.len() >= 1 && !leads_to(dir, file) && #[trigger] has_child(tree, dir) ==> has_child(
                pruned(tree, file, depth),
                dir,
            ),
    decreases depth,
{
    let after = pruned(tree, file, depth);
    if depth >= 1 {
        let top = file.take(depth);
        assert(leads_to(top, file));
        if !has_child(tree, top) {
            let less = tree.remove(top);
            assert(is_tree(less)) by {
                assert forall|key: Seq<Seq<char>>, dir: Seq<Seq<char>>|
                    #![trigger less.contains_key(key), leads_to(dir, key)]
                    less.contains_key(key) && leads_to(dir, key) implies less.contains_key(dir)
                    && less[dir] is Dir by {
                    assert(tree.contains_key(key));
                    assert(tree.contains_key(dir) && tree[dir] is Dir);
                    if dir == top {
                        let child = key.take(depth + 1);
                        assert(child.drop_last() =~= top);
                        if child.len() < key.len() {
                            assert(leads_to(child, key));
                        } else {
                            assert(child =~= key);
                        }
                        assert(tree.contains_key(child) && stands_in(child, top));
                    }
                }
            }
            if depth - 1 >= 1 {
                let next = file.take(depth - 1);
                assert(top.take(depth - 1) =~= next);
                assert(leads_to(next, top));
            }
            lemma_pruned(less, file, depth - 1);
            assert forall|dir: Seq<Seq<char>>|
                dir.len() >= 1 && !leads_to(dir, file) && #[trigger] has_child(
                    tree,
                    dir,
                ) implies has_child(after, dir) by {
                let child = choose|child: Seq<Seq<char>>| #[trigger]
                    tree.contains_key(child) && stands_in(child, dir);
                if child == top {
                    assert(file.take(dir.len() as int) =~= dir);
                }
                assert(less.contains_key(child));
                assert(has_child(less, dir));
            }
        } else {
            assert forall|dir: Seq<Seq<char>>| #[trigger]
                leads_to(dir, file) && after.contains_key(dir) implies has_child(after, dir) by {
                if dir.len() < depth {
                    let child = file.take(dir.len() as int + 1);
                    assert(child.drop_last() =~= dir);
                    if child.len() < depth {
                        assert(top.take(child.len() as int) =~= child);
                        assert(leads_to(child, top));
                    } else {
                        assert(child =~= top);
                    }
                    assert(tree.contains_key(child) && stands_in(child, dir));
                } else {
                    assert(dir =~= top);
                }
            }
        }
    }
}

/// Linking without conflict leaves a tree.
pub proof fn lemma_linked_is_tree(tree: Tree, group: LinkGroupView)
    requires
        is_tree(tree),
        group.valid(),
        prefix_free(group.sources),
        target_conflicts(group.sources, looks(tree, group.sources)).len() == 0,
    ensures
        is_tree(linked(tree, group.sources)),
{
    let sources = group.sources;
    let after = linked(tree, sources);
    lemma_linked(tree, sources);
    lemma_no_conflict(sources, looks(tree, sources));
    assert forall|i: int, dir: Seq<Seq<char>>|
        #![trigger leads_to(dir, sources[i].file), after.contains_key(dir)]
        0 <= i < sources.len() && leads_to(dir, sources[i].file) implies after.contains_key(dir)
        && after[dir] is Dir by {
        assert(on_the_way(sources, dir));
        if tree.contains_key(dir) {
            assert(found_at(looks(tree, sources), i) == look(tree, sources[i].file));
            assert(!found_at(looks(tree, sources), i).blocks(sources[i].path()));
        } else if names_file(sources, dir) {
            let j = choose|j: int| 0 <= j < sources.len() && #[trigger] sources[j].file == dir;
            assert(leads_to(sources[j].file, sources[i].file));
        }
    }
    assert forall|key: Seq<Seq<char>>| #[trigger] after.contains_key(key) implies key.len()
        >= 1 by {
        if names_file(sources, key) {
            let j = choose|j: int| 0 <= j < sources.len() && #[trigger] sources[j].file == key;
            assert(is_relative(sources[j].file));
        }
    }
    assert forall|key: Seq<Seq<char>>, dir: Seq<Seq<char>>|
        #![trigger after.contains_key(key), leads_to(dir, key)]
        after.contains_key(key) && leads_to(dir, key) implies after.contains_key(dir)
        && after[dir] is Dir by {
        if tree.contains_key(key) {
            assert(tree.contains_key(dir) && tree[dir] is Dir);
        } else if names_file(sources, key) {
            let j = choose|j: int| 0 <= j < sources.len() && #[trigger] sources[j].file == key;
            assert(leads_to(dir, sources[j].file));
        } else {
            let j = choose|j: int|
                0 <= j < sources.len() && leads_to(key, #[trigger] sources[j].file);
            assert(sources[j].file.take(dir.len() as int) =~= key.take(dir.len() as int));
            assert(leads_to(dir, sources[j].file));
        }
    }
}

/// How far unlinking has come after `count` sources: the tree is a tree,
/// nothing has been added or changed, the links of the sources that had
/// their turn are gone and the others are there, and nothing is gone but
/// links of the group and, unless orphans are left, directories on the way
/// to them. Unless orphans are left, each directory on the way to a link
/// that is gone has something in it if it is still there.
pub open spec fn unlinked_so_far(
    start: Tree,
    now: Tree,
    sources: Seq<SourceView>,
    leave_orphans: bool,
    count: int,
) -> bool {
    &&& is_tree(now)
    &&& forall|key: Seq<Seq<char>>| #[trigger]
        now.contains_key(key) ==> start.contains_key(key) && now[key] == start[key]
    &&& forall|i: int| 0 <= i < count ==> !now.contains_key(#[trigger] sources[i].file)
    &&& forall|i: int| count <= i < sources.len() ==> now.contains_key(#[trigger] sources[i].file)
    &&& forall|key: Seq<Seq<char>>|
        start.contains_key(key) && !(#[trigger] now.contains_key(key)) ==> names_file(sources, key)
            || (!leave_orphans && on_the_way(sources, key))
    &&& !leave_orphans ==> forall|i: int, dir: Seq<Seq<char>>|
        #![trigger leads_to(dir, sources[i].file), now.contains_key(dir)]
        0 <= i < count && leads_to(dir, sources[i].file) && now.contains_key(dir) ==> has_child(
            now,
            dir,
        )
}

/// Unlinking a group whose links are all in place keeps to `unlinked_so_far`.
pub proof fn lemma_unlinked(start: Tree, group: LinkGroupView, leave_orphans: bool, count: int)
    requires
        is_tree(start),
        group.valid(),
        prefix_free(group.sources),
        all_in_place(group.sources, looks(start, group.sources)),
        0 <= count <= group.sources.len(),
    ensures
        unlinked_so_far(
            start,
            unlinked(start, group, looks(start, group.sources), leave_orphans, count),
            group.sources,
            leave_orphans,
            count,
        ),
    decreases count,
{
    let sources = group.sources;
    let found = looks(start, sources);
    assert forall|i: int| 0 <= i < sources.len() implies start.contains_key(
        #[trigger] sources[i].file,
    ) && start[sources[i].file] == Node::Link(sources[i].path()) by {
        assert(found_at(found, i) == look(start, sources[i].file));
        assert(found_at(found, i).is_link_to(sources[i].path()));
    }
    if count > 0 {
        lemma_unlinked(start, group, leave_orphans, count - 1);
        let before = unlinked(start, group, found, leave_orphans, count - 1);
        let now = unlinked(start, group, found, leave_orphans, count);
        let source = sources[count - 1];
        let file = source.file;
        let less = before.remove(file);
        assert(found_at(found, count - 1).is_link_to(source.path()));
        assert(is_relative(file));
        assert(before.contains_key(file));
        assert(before[file] == start[file]);
        assert(is_tree(less)) by {
            assert forall|key: Seq<Seq<char>>, dir: Seq<Seq<char>>|
                #![trigger less.contains_key(key), leads_to(dir, key)]
                less.contains_key(key) && leads_to(dir, key) implies less.contains_key(dir)
                && less[dir] is Dir by {
                assert(before.contains_key(key));
                assert(before.contains_key(dir) && before[dir] is Dir);
            }
        }
        let depth = if leave_orphans {
            0
        } else {
            file.len() - 1
        };
        assert(now == pruned(less, file, depth));
        if depth >= 1 {
            assert(leads_to(file.take(depth), file));
        }
        if leave_orphans {
            assert(now == less);
        } else {
            lemma_pruned(less, file, depth);
        }
        assert forall|i: int| count <= i < sources.len() implies now.contains_key(
            #[trigger] sources[i].file,
        ) by {
            assert(files_of(sources)[i] != files_of(sources)[count - 1]);
            assert(less.contains_key(sources[i].file));
            assert(!leads_to(sources[i].file, sources[count - 1].file));
        }
        assert forall|i: int| 0 <= i < count implies !now.contains_key(
            #[trigger] sources[i].file,
        ) by {
            if i < count - 1 {
                assert(!before.contains_key(sources[i].file));
            }
        }
        assert forall|key: Seq<Seq<char>>|
            start.contains_key(key) && !(#[trigger] now.contains_key(key)) implies names_file(
            sources,
            key,
        ) || (!leave_orphans && on_the_way(sources, key)) by {
            if before.contains_key(key) {
                if key == file {
                    assert(sources[count - 1].file == key);
                } else {
                    assert(less.contains_key(key));
                    assert(leads_to(key, sources[count - 1].file));
                }
            }
        }
        if !leave_orphans {
            assert forall|i: int, dir: Seq<Seq<char>>|
                #![trigger leads_to(dir, sources[i].file), now.contains_key(dir)]
                0 <= i < count && leads_to(dir, sources[i].file) && now.contains_key(
                    dir,
                ) implies has_child(now, dir) by {
                if !leads_to(dir, file) {
                    assert(i < count - 1);
                    assert(before.contains_key(dir));
                    assert(has_child(before, dir));
                    let child = choose|child: Seq<Seq<char>>| #[trigger]
                        before.contains_key(child) && stands_in(child, dir);
                    if child == file {
                        assert(file.take(dir.len() as int) =~= dir);
                    }
                    assert(less.contains_key(child));
                    assert(has_child(less, dir));
                }
            }
        }
    }
}

/// Unlinking undoes linking. When a group whose sources are not in each
/// other's way has been linked without conflict and is then unlinked, every
/// link of the group is gone, whether it was made then or had been there
/// before. Nothing has been added or changed, and what the group has no
/// part in is still there. With `leave_orphans` every directory is still
/// there. Without it no directory on the way to a link is left empty: each
/// has been removed or has something in it. The target itself is no entry
/// of its tree and so is never removed.
pub proof fn lemma_unlink_after_link(tree: Tree, group: LinkGroupView, leave_orphans: bool)
    requires
        is_tree(tree),
        group.valid(),
        prefix_free(group.sources),
        target_conflicts(group.sources, looks(tree, group.sources)).len() == 0,
    ensures
        ({
            let sources = group.sources;
            let made = linked(tree, sources);
            let after = unlinked(
                made,
                group,
                looks(made, sources),
                leave_orphans,
                sources.len() as int,
            );
            &&& is_tree(after)
            &&& forall|i: int|
                0 <= i < sources.len() ==> !after.contains_key(#[trigger] sources[i].file)
            &&& forall|key: Seq<Seq<char>>| #[trigger]
                after.contains_key(key) ==> made.contains_key(key) && after[key] == made[key]
            &&& forall|key: Seq<Seq<char>>|
                tree.contains_key(key) && !names_file(sources, key) && !on_the_way(sources, key)
                    ==> #[trigger] after.contains_key(key) && after[key] == tree[key]
            &&& leave_orphans ==> forall|key: Seq<Seq<char>>|
                made.contains_key(key) && !names_file(sources, key)
                    ==> #[trigger] after.contains_key(key)
            &&& !leave_orphans ==> forall|i: int, dir: Seq<Seq<char>>|
                #![trigger leads_to(dir, sources[i].file), after.contains_key(dir)]
                0 <= i < sources.len() && leads_to(dir, sources[i].file) && after.contains_key(dir)
                    ==> has_child(after, dir)
        }),
{
    let sources = group.sources;
    let made = linked(tree, sources);
    lemma_link_twice(tree, group);
    lemma_linked_is_tree(tree, group);
    lemma_linked(tree, sources);
    lemma_unlinked(made, group, leave_orphans, sources.len() as int);
    let after = unlinked(made, group, looks(made, sources), leave_orphans, sources.len() as int);
    assert forall|key: Seq<Seq<char>>|
        tree.contains_key(key) && !names_file(sources, key) && !on_the_way(
            sources,
            key,
        ) implies #[trigger] after.contains_key(key) && after[key] == tree[key] by {
        assert(made.contains_key(key));
        assert(made[key] == tree[key]);
    }
}

} // verus!
