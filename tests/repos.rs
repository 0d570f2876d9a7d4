use std::path::PathBuf;

use mid::find_repo::RepoProbe;
use mid::lists::ListAge;
use mid::{find_repos, outdated};

fn probe(root: &str, has_git_head: bool, has_mid_dir: bool) -> RepoProbe {
    RepoProbe { root: PathBuf::from(root), has_git_head, has_mid_dir }
}

#[test]
fn repositories_nearest_first() {
    let r = find_repos(vec![
        probe("/a/b/c", false, false),
        probe("/a/b", true, true),
        probe("/a", false, true),
        probe("/", true, false),
    ]);
    assert_eq!(r.len(), 2);
    assert_eq!(r[0].root, PathBuf::from("/a/b"));
    assert!(r[0].mid);
    assert_eq!(r[0].kind_label(), "mid");
    assert_eq!(r[1].root, PathBuf::from("/"));
    assert!(!r[1].mid);
    assert_eq!(r[1].kind_label(), "git");
}

#[test]
fn no_repositories() {
    assert!(find_repos(Vec::new()).is_empty());
    assert!(find_repos(vec![probe("/x", false, true)]).is_empty());
}

#[test]
fn list_freshness() {
    assert!(outdated(ListAge::Missing));
    assert!(outdated(ListAge::Unknown));
    assert!(outdated(ListAge::Future));
    assert!(!outdated(ListAge::Elapsed { secs: 0, nanos: 0 }));
    assert!(!outdated(ListAge::Elapsed { secs: 4 * 60 * 60, nanos: 0 }));
    assert!(outdated(ListAge::Elapsed { secs: 4 * 60 * 60, nanos: 1 }));
    assert!(outdated(ListAge::Elapsed { secs: 4 * 60 * 60 + 1, nanos: 0 }));
}
