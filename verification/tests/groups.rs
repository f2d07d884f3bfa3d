use clink::link::{Found, Link, LinkGroup, Unlink};
use clink::path::RelPath;

fn rel(text: &str) -> RelPath {
    RelPath::new(text.split('/').map(|s| s.to_string()).collect()).expect("a relative path")
}

fn rels(texts: &[&str]) -> Vec<RelPath> {
    texts.iter().map(|t| rel(t)).collect()
}

fn strings(items: &[&str]) -> Vec<String> {
    items.iter().map(|s| s.to_string()).collect()
}

fn link_to(path: &str) -> Found {
    Found::Link(path.to_string())
}

fn contents(group: &LinkGroup) -> Vec<(String, String)> {
    group.sources().iter().map(|s| (s.base().clone(), s.file().text())).collect()
}

fn pairs(items: &[(&str, &str)]) -> Vec<(String, String)> {
    items.iter().map(|(a, b)| (a.to_string(), b.to_string())).collect()
}

fn sample() -> LinkGroup {
    let mut group = LinkGroup::empty("/home/u/.config".to_string());
    group.add_source("/dots/{mac}nvim", &rels(&["nvim/init.lua", "nvim/lua/x.lua"])).unwrap();
    group.add_source("/dots/{mac}git", &rels(&["gitconfig"])).unwrap();
    group
}

#[test]
fn empty_group_has_a_target_and_no_sources() {
    let group = LinkGroup::empty("/home/u".to_string());
    assert_eq!(group.target(), "/home/u");
    assert!(group.sources().is_empty());
    assert!(group.places().is_empty());
}

#[test]
fn add_source_tags_each_file_with_its_base() {
    let mut group = LinkGroup::empty("/t".to_string());
    assert_eq!(group.add_source("/src/one", &rels(&["a/b.txt", "c"])), Ok(()));
    assert_eq!(contents(&group), pairs(&[("/src/one", "a/b.txt"), ("/src/one", "c")]));
    assert_eq!(group.target(), "/t");
}

#[test]
fn add_source_appends_to_earlier_trees() {
    let mut group = LinkGroup::empty("/t".to_string());
    group.add_source("/src/one", &rels(&["a/b.txt"])).unwrap();
    assert_eq!(group.add_source("/src/two", &rels(&["a/c.txt", "d"])), Ok(()));
    assert_eq!(
        contents(&group),
        pairs(&[("/src/one", "a/b.txt"), ("/src/two", "a/c.txt"), ("/src/two", "d")])
    );
}

#[test]
fn add_source_of_no_files_changes_nothing() {
    let mut group = LinkGroup::empty("/t".to_string());
    group.add_source("/src/one", &rels(&["a"])).unwrap();
    assert_eq!(group.add_source("/src/two", &[]), Ok(()));
    assert_eq!(contents(&group), pairs(&[("/src/one", "a")]));
}

#[test]
fn add_source_counts_a_repeated_path_once() {
    let mut group = LinkGroup::empty("/t".to_string());
    assert_eq!(group.add_source("/src/one", &rels(&["a", "b", "a", "b", "c"])), Ok(()));
    assert_eq!(contents(&group), pairs(&[("/src/one", "a"), ("/src/one", "b"), ("/src/one", "c")]));
}

#[test]
fn second_tree_with_the_same_path_conflicts() {
    let mut group = LinkGroup::empty("/t".to_string());
    assert_eq!(group.add_source("/src/one", &rels(&["a/b.txt"])), Ok(()));
    assert_eq!(group.add_source("/src/two", &rels(&["a/b.txt"])), Err(rels(&["a/b.txt"])));
}

#[test]
fn conflict_lists_exactly_the_shared_paths() {
    let mut group = LinkGroup::empty("/t".to_string());
    group.add_source("/src/one", &rels(&["a/b.txt", "x", "y/z"])).unwrap();
    let merged = group.add_source("/src/two", &rels(&["new", "y/z", "a/b.txt", "other", "y/z"]));
    assert_eq!(merged, Err(rels(&["y/z", "a/b.txt"])));
}

#[test]
fn failed_merge_leaves_the_group_as_it_was() {
    let mut group = LinkGroup::empty("/t".to_string());
    group.add_source("/src/one", &rels(&["a/b.txt", "x"])).unwrap();
    let before = contents(&group);
    assert!(group.add_source("/src/two", &rels(&["fresh", "x", "more"])).is_err());
    assert_eq!(contents(&group), before);
    assert_eq!(group.target(), "/t");
    assert_eq!(group.add_source("/src/two", &rels(&["fresh", "more"])), Ok(()));
    assert_eq!(
        contents(&group),
        pairs(&[("/src/one", "a/b.txt"), ("/src/one", "x"), ("/src/two", "fresh"), ("/src/two", "more")])
    );
}

#[test]
fn same_tree_twice_conflicts_with_itself() {
    let mut group = LinkGroup::empty("/t".to_string());
    group.add_source("/src/one", &rels(&["a", "b"])).unwrap();
    assert_eq!(group.add_source("/src/one", &rels(&["a", "b"])), Err(rels(&["a", "b"])));
}

#[test]
fn a_directory_and_a_file_in_it_are_different_paths() {
    let mut group = LinkGroup::empty("/t".to_string());
    group.add_source("/src/one", &rels(&["a"])).unwrap();
    assert_eq!(group.add_source("/src/two", &rels(&["a/b"])), Ok(()));
}

#[test]
fn source_path_is_the_file_inside_the_base() {
    let group = sample();
    let paths: Vec<String> = group.sources().iter().map(|s| s.path()).collect();
    assert_eq!(
        paths,
        strings(&[
            "/dots/{mac}nvim/nvim/init.lua",
            "/dots/{mac}nvim/nvim/lua/x.lua",
            "/dots/{mac}git/gitconfig",
        ])
    );
    assert_eq!(group.sources()[0].base(), "/dots/{mac}nvim");
    assert_eq!(group.sources()[0].file(), &rel("nvim/init.lua"));
}

#[test]
fn places_lie_under_the_target() {
    let group = sample();
    assert_eq!(
        group.places(),
        strings(&[
            "/home/u/.config/nvim/init.lua",
            "/home/u/.config/nvim/lua/x.lua",
            "/home/u/.config/gitconfig",
        ])
    );
}

#[test]
fn nothing_in_the_way_means_no_conflict() {
    let group = sample();
    let found = vec![Found::Nothing, Found::Nothing, Found::Nothing];
    assert!(group.target_conflicts(&found).is_empty());
}

#[test]
fn own_links_are_no_conflict() {
    let group = sample();
    let found = vec![
        link_to("/dots/{mac}nvim/nvim/init.lua"),
        Found::Nothing,
        link_to("/dots/{mac}git/gitconfig"),
    ];
    assert!(group.target_conflicts(&found).is_empty());
}

#[test]
fn a_plain_file_is_a_conflict() {
    let group = sample();
    let found = vec![Found::Nothing, Found::Other, Found::Nothing];
    assert_eq!(group.target_conflicts(&found), rels(&["nvim/lua/x.lua"]));
}

#[test]
fn a_link_to_another_file_is_a_conflict() {
    let group = sample();
    let found = vec![link_to("/elsewhere/init.lua"), Found::Nothing, Found::Nothing];
    assert_eq!(group.target_conflicts(&found), rels(&["nvim/init.lua"]));
}

#[test]
fn a_link_to_another_source_of_the_group_is_a_conflict() {
    let group = sample();
    let found = vec![link_to("/dots/{mac}git/gitconfig"), Found::Nothing, Found::Nothing];
    assert_eq!(group.target_conflicts(&found), rels(&["nvim/init.lua"]));
}

#[test]
fn an_unreadable_place_is_a_conflict() {
    let group = sample();
    let found = vec![Found::Nothing, Found::Nothing, Found::Unreadable];
    assert_eq!(group.target_conflicts(&found), rels(&["gitconfig"]));
}

#[test]
fn a_place_that_was_not_looked_at_is_a_conflict() {
    let group = sample();
    assert_eq!(group.target_conflicts(&[Found::Nothing]), rels(&["nvim/lua/x.lua", "gitconfig"]));
    assert_eq!(
        group.target_conflicts(&[]),
        rels(&["nvim/init.lua", "nvim/lua/x.lua", "gitconfig"])
    );
}

#[test]
fn all_conflicts_are_listed_in_order() {
    let group = sample();
    let found = vec![Found::Other, link_to("/dots/{mac}nvim/nvim/lua/x.lua"), Found::Unreadable];
    assert_eq!(group.target_conflicts(&found), rels(&["nvim/init.lua", "gitconfig"]));
}

#[test]
fn link_plans_one_step_for_each_source() {
    let group = sample();
    let steps = group.link(&[Found::Nothing, Found::Nothing, Found::Nothing]);
    assert_eq!(
        steps,
        Ok(vec![
            Link {
                at: "/home/u/.config/nvim/init.lua".to_string(),
                to: "/dots/{mac}nvim/nvim/init.lua".to_string(),
                dir: "/home/u/.config/nvim".to_string(),
            },
            Link {
                at: "/home/u/.config/nvim/lua/x.lua".to_string(),
                to: "/dots/{mac}nvim/nvim/lua/x.lua".to_string(),
                dir: "/home/u/.config/nvim/lua".to_string(),
            },
            Link {
                at: "/home/u/.config/gitconfig".to_string(),
                to: "/dots/{mac}git/gitconfig".to_string(),
                dir: "/home/u/.config".to_string(),
            },
        ])
    );
}

#[test]
fn link_of_an_empty_group_has_no_steps() {
    let group = LinkGroup::empty("/t".to_string());
    assert_eq!(group.link(&[]), Ok(vec![]));
    assert_eq!(group.link(&[Found::Other]), Ok(vec![]));
}

#[test]
fn link_with_a_plain_file_in_the_way_links_nothing() {
    let group = sample();
    let steps = group.link(&[Found::Nothing, Found::Nothing, Found::Other]);
    assert_eq!(steps, Err(rels(&["gitconfig"])));
}

#[test]
fn link_reports_every_conflict() {
    let group = sample();
    let steps = group.link(&[Found::Unreadable, link_to("/other"), Found::Nothing]);
    assert_eq!(steps, Err(rels(&["nvim/init.lua", "nvim/lua/x.lua"])));
}

#[test]
fn link_again_after_linking_is_accepted() {
    let group = sample();
    let first = group.link(&[Found::Nothing, Found::Nothing, Found::Nothing]).unwrap();
    let found: Vec<Found> = first.iter().map(|step| Found::Link(step.to.clone())).collect();
    assert!(group.target_conflicts(&found).is_empty());
    assert_eq!(group.link(&found), Ok(first));
}

#[test]
fn unlink_removes_own_links_and_prunes_upward() {
    let group = sample();
    let found = vec![
        link_to("/dots/{mac}nvim/nvim/init.lua"),
        link_to("/dots/{mac}nvim/nvim/lua/x.lua"),
        link_to("/dots/{mac}git/gitconfig"),
    ];
    assert_eq!(
        group.unlink(&found, false),
        Ok(vec![
            Unlink {
                at: "/home/u/.config/nvim/init.lua".to_string(),
                prune: strings(&["/home/u/.config/nvim"]),
            },
            Unlink {
                at: "/home/u/.config/nvim/lua/x.lua".to_string(),
                prune: strings(&["/home/u/.config/nvim/lua", "/home/u/.config/nvim"]),
            },
            Unlink { at: "/home/u/.config/gitconfig".to_string(), prune: vec![] },
        ])
    );
}

#[test]
fn unlink_leaving_orphans_prunes_nothing() {
    let group = sample();
    let found = vec![
        link_to("/dots/{mac}nvim/nvim/init.lua"),
        link_to("/dots/{mac}nvim/nvim/lua/x.lua"),
        link_to("/dots/{mac}git/gitconfig"),
    ];
    assert_eq!(
        group.unlink(&found, true),
        Ok(vec![
            Unlink { at: "/home/u/.config/nvim/init.lua".to_string(), prune: vec![] },
            Unlink { at: "/home/u/.config/nvim/lua/x.lua".to_string(), prune: vec![] },
            Unlink { at: "/home/u/.config/gitconfig".to_string(), prune: vec![] },
        ])
    );
}

#[test]
fn unlink_never_prunes_the_target() {
    let mut group = LinkGroup::empty("/t".to_string());
    group.add_source("/s", &rels(&["a/b/c/d"])).unwrap();
    let steps = group.unlink(&[link_to("/s/a/b/c/d")], false).unwrap();
    assert_eq!(steps.len(), 1);
    assert_eq!(steps[0].prune, strings(&["/t/a/b/c", "/t/a/b", "/t/a"]));
    assert!(steps[0].prune.iter().all(|dir| dir.starts_with("/t/") && dir != "/t"));
}

#[test]
fn unlink_leaves_what_it_does_not_own() {
    let group = sample();
    let found = vec![Found::Other, link_to("/elsewhere"), Found::Nothing];
    assert_eq!(group.unlink(&found, false), Ok(vec![]));
    assert_eq!(group.unlink(&[Found::Unreadable], false), Ok(vec![]));
    assert_eq!(group.unlink(&[], true), Ok(vec![]));
}

#[test]
fn unlink_removes_only_the_links_it_owns() {
    let group = sample();
    let found = vec![Found::Other, link_to("/dots/{mac}nvim/nvim/lua/x.lua")];
    assert_eq!(
        group.unlink(&found, false),
        Ok(vec![Unlink {
            at: "/home/u/.config/nvim/lua/x.lua".to_string(),
            prune: strings(&["/home/u/.config/nvim/lua", "/home/u/.config/nvim"]),
        }])
    );
}

#[test]
fn unlink_after_link_removes_every_link() {
    let group = sample();
    let linked = group.link(&[Found::Nothing, Found::Nothing, Found::Nothing]).unwrap();
    let found: Vec<Found> = linked.iter().map(|step| Found::Link(step.to.clone())).collect();
    let removed = group.unlink(&found, false).unwrap();
    let made: Vec<&String> = linked.iter().map(|step| &step.at).collect();
    let gone: Vec<&String> = removed.iter().map(|step| &step.at).collect();
    assert_eq!(made, gone);
}

#[test]
fn found_tells_links_apart() {
    assert!(Found::Nothing.is_nothing());
    assert!(!Found::Other.is_nothing());
    assert!(!Found::Unreadable.is_nothing());
    assert!(!link_to("/a").is_nothing());
    assert!(link_to("/a").points_to(&"/a".to_string()));
    assert!(!link_to("/a").points_to(&"/a/".to_string()));
    assert!(!Found::Nothing.points_to(&"/a".to_string()));
    assert!(!Found::Other.points_to(&"/a".to_string()));
}
