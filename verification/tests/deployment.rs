use clink::deploy::{governing_feature, DeployError, Deployment};
use clink::feature::{Enabled, Feature, FeatureList, Host, HostOs};
use clink::link::{Found, Link};
use clink::path::{join, RelPath};

fn rel(text: &str) -> RelPath {
    RelPath::new(text.split('/').map(|s| s.to_string()).collect()).expect("a relative path")
}

fn rels(texts: &[&str]) -> Vec<RelPath> {
    texts.iter().map(|t| rel(t)).collect()
}

fn feature(slug: &str, target: &str, enabled: Enabled) -> Feature {
    Feature { slug: slug.to_string(), target: target.to_string(), enabled }
}

fn targets(deployment: &Deployment) -> Vec<String> {
    deployment.groups().iter().map(|g| g.target().clone()).collect()
}

fn files(deployment: &Deployment, at: usize) -> Vec<String> {
    deployment.groups()[at].sources().iter().map(|s| s.path()).collect()
}

#[test]
fn new_deployment_has_no_groups() {
    assert!(Deployment::new().groups().is_empty());
}

#[test]
fn place_makes_a_group_for_a_new_target() {
    let mut deployment = Deployment::new();
    assert_eq!(deployment.place("/t".to_string(), "/s/one", &rels(&["a", "b/c"])), Ok(()));
    assert_eq!(targets(&deployment), vec!["/t".to_string()]);
    assert_eq!(files(&deployment, 0), vec!["/s/one/a".to_string(), "/s/one/b/c".to_string()]);
}

#[test]
fn place_merges_trees_of_one_target() {
    let mut deployment = Deployment::new();
    deployment.place("/t".to_string(), "/s/one", &rels(&["a"])).unwrap();
    deployment.place("/u".to_string(), "/s/two", &rels(&["a"])).unwrap();
    assert_eq!(deployment.place("/t".to_string(), "/s/three", &rels(&["b"])), Ok(()));
    assert_eq!(targets(&deployment), vec!["/t".to_string(), "/u".to_string()]);
    assert_eq!(files(&deployment, 0), vec!["/s/one/a".to_string(), "/s/three/b".to_string()]);
    assert_eq!(files(&deployment, 1), vec!["/s/two/a".to_string()]);
}

#[test]
fn place_tells_targets_apart_by_their_text() {
    let mut deployment = Deployment::new();
    deployment.place("/t".to_string(), "/s/one", &rels(&["a"])).unwrap();
    assert_eq!(deployment.place("/t/".to_string(), "/s/two", &rels(&["a"])), Ok(()));
    assert_eq!(targets(&deployment), vec!["/t".to_string(), "/t/".to_string()]);
}

#[test]
fn place_with_a_conflict_changes_nothing() {
    let mut deployment = Deployment::new();
    deployment.place("/t".to_string(), "/s/one", &rels(&["a", "b"])).unwrap();
    deployment.place("/u".to_string(), "/s/two", &rels(&["c"])).unwrap();
    let merged = deployment.place("/t".to_string(), "/s/three", &rels(&["x", "b", "a"]));
    assert_eq!(merged, Err(rels(&["b", "a"])));
    assert_eq!(targets(&deployment), vec!["/t".to_string(), "/u".to_string()]);
    assert_eq!(files(&deployment, 0), vec!["/s/one/a".to_string(), "/s/one/b".to_string()]);
    assert_eq!(files(&deployment, 1), vec!["/s/two/c".to_string()]);
}

#[test]
fn place_of_an_empty_tree_still_makes_the_group() {
    let mut deployment = Deployment::new();
    assert_eq!(deployment.place("/t".to_string(), "/s/one", &[]), Ok(()));
    assert_eq!(targets(&deployment), vec!["/t".to_string()]);
    assert!(deployment.groups()[0].sources().is_empty());
}

#[test]
fn add_takes_a_plain_target_as_written() {
    let mut deployment = Deployment::new();
    let vim = feature("vim", "/etc/vim", Enabled::All);
    assert_eq!(deployment.add(&vim, "/s/{vim}rc", &rels(&["vimrc"])), Ok(()));
    assert_eq!(targets(&deployment), vec!["/etc/vim".to_string()]);
    assert_eq!(files(&deployment, 0), vec!["/s/{vim}rc/vimrc".to_string()]);
}

#[test]
fn add_expands_the_target() {
    let mut deployment = Deployment::new();
    let odd = feature("odd", "/srv/$$/conf", Enabled::All);
    assert_eq!(deployment.add(&odd, "/s/{odd}x", &rels(&["a"])), Ok(()));
    assert_eq!(targets(&deployment), vec!["/srv/$/conf".to_string()]);
}

#[test]
fn add_groups_by_the_expanded_target() {
    let mut deployment = Deployment::new();
    let one = feature("one", "/srv/$$", Enabled::All);
    let two = feature("two", "/srv/$$$$", Enabled::All);
    deployment.place("/srv/$".to_string(), "/s/zero", &rels(&["a"])).unwrap();
    assert_eq!(deployment.add(&one, "/s/{one}x", &rels(&["b"])), Ok(()));
    assert_eq!(deployment.add(&two, "/s/{two}x", &rels(&["b"])), Ok(()));
    assert_eq!(targets(&deployment), vec!["/srv/$".to_string(), "/srv/$$".to_string()]);
    assert_eq!(files(&deployment, 0), vec!["/s/zero/a".to_string(), "/s/{one}x/b".to_string()]);
}

#[test]
fn add_reports_a_variable_that_is_not_set() {
    let mut deployment = Deployment::new();
    deployment.place("/t".to_string(), "/s/one", &rels(&["a"])).unwrap();
    let lost = feature("lost", "$CLINK_NO_SUCH_VARIABLE_IS_SET/x", Enabled::All);
    assert_eq!(
        deployment.add(&lost, "/s/{lost}x", &rels(&["a"])),
        Err(DeployError::Expansion { variable: "CLINK_NO_SUCH_VARIABLE_IS_SET".to_string() })
    );
    assert_eq!(targets(&deployment), vec!["/t".to_string()]);
    assert_eq!(files(&deployment, 0), vec!["/s/one/a".to_string()]);
}

#[test]
fn add_reports_a_conflict_with_its_target() {
    let mut deployment = Deployment::new();
    let one = feature("one", "/t", Enabled::All);
    let two = feature("two", "/t", Enabled::Linux);
    assert_eq!(deployment.add(&one, "/s/{one}x", &rels(&["a/b.txt", "c"])), Ok(()));
    assert_eq!(
        deployment.add(&two, "/s/{two}x", &rels(&["a/b.txt"])),
        Err(DeployError::Conflict { target: "/t".to_string(), conflicts: rels(&["a/b.txt"]) })
    );
    assert_eq!(files(&deployment, 0), vec!["/s/{one}x/a/b.txt".to_string(), "/s/{one}x/c".to_string()]);
}

#[test]
fn directory_with_two_slugs_is_linked_for_the_enabled_feature() {
    let registry = FeatureList(vec![
        feature("mac", "~/.config", Enabled::MacOS),
        feature("linux", "~/.config", Enabled::Linux),
    ]);
    let enabled = registry.filter_enabled(&Host::new(HostOs::MacOS));
    let governing = governing_feature(&enabled, "{mac,linux}app").expect("a feature");
    assert_eq!(governing.slug, "mac");

    let mut deployment = Deployment::new();
    assert_eq!(deployment.add(governing, "/work/{mac,linux}app", &rels(&["x.conf"])), Ok(()));
    assert_eq!(deployment.groups().len(), 1);
    let group = &deployment.groups()[0];
    let target = group.target().clone();
    assert!(target.ends_with("/.config"));
    assert_eq!(group.places(), vec![join(&target, "x.conf")]);
    assert_eq!(
        group.link(&[Found::Nothing]),
        Ok(vec![Link {
            at: join(&target, "x.conf"),
            to: "/work/{mac,linux}app/x.conf".to_string(),
            dir: target.clone(),
        }])
    );
}

#[test]
fn directory_of_a_disabled_feature_is_skipped() {
    let registry = FeatureList(vec![
        feature("mac", "~/.config", Enabled::MacOS),
        feature("linux", "~/.config", Enabled::Linux),
    ]);
    let enabled = registry.filter_enabled(&Host::new(HostOs::Linux));
    assert_eq!(governing_feature(&enabled, "{mac}app"), None);
    assert_eq!(governing_feature(&enabled, "{mac,linux}app").map(|f| f.slug.as_str()), Some("linux"));
}
