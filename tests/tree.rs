use mid::tree::{
    entry_action, EntryAction, FileTree, ObjectId, PlannedTarget, TreeError, TreeJob, REGULAR_FILE_MODE,
};

fn path(s: &str) -> Vec<Vec<u8>> {
    s.split('/').map(|p| p.as_bytes().to_vec()).collect()
}

fn id(b: u8) -> ObjectId {
    ObjectId { bytes: vec![b; 20] }
}

fn listing(t: &FileTree, dir: &str) -> Vec<(Vec<u8>, Option<(Vec<u8>, u32)>)> {
    let d = if dir.is_empty() { Vec::new() } else { path(dir) };
    let mut v: Vec<_> = t
        .children(&d)
        .into_iter()
        .map(|c| (c.name, c.file.map(|(i, m)| (i.bytes, m))))
        .collect();
    v.sort();
    v
}

#[test]
fn nested_files_form_directories() {
    for order in [[0usize, 1], [1, 0]] {
        let names = ["a/b/c", "a/b/d"];
        let mut t = FileTree::new();
        for &i in &order {
            t.add_file(path(names[i]), id(i as u8 + 1)).unwrap();
        }
        assert_eq!(listing(&t, ""), vec![(b"a".to_vec(), None)]);
        assert_eq!(listing(&t, "a"), vec![(b"b".to_vec(), None)]);
        assert_eq!(
            listing(&t, "a/b"),
            vec![
                (b"c".to_vec(), Some((vec![1u8; 20], REGULAR_FILE_MODE))),
                (b"d".to_vec(), Some((vec![2u8; 20], REGULAR_FILE_MODE))),
            ]
        );
        assert_eq!(t.len(), 2);
    }
}

#[test]
fn file_inside_file_collides() {
    let mut t = FileTree::new();
    t.add_file(path("x"), id(1)).unwrap();
    assert_eq!(t.add_file(path("x/y"), id(2)), Err(TreeError::Collision));
    assert_eq!(t.len(), 1);

    let mut t = FileTree::new();
    t.add_file(path("x/y"), id(2)).unwrap();
    assert_eq!(t.add_file(path("x"), id(1)), Err(TreeError::Collision));
    assert_eq!(listing(&t, "x"), vec![(b"y".to_vec(), Some((vec![2u8; 20], REGULAR_FILE_MODE)))]);
}

#[test]
fn same_path_replaces_file() {
    let mut t = FileTree::new();
    t.add_file(path("x/y"), id(1)).unwrap();
    t.add_file(path("x/y"), id(3)).unwrap();
    assert_eq!(t.len(), 1);
    assert_eq!(listing(&t, "x"), vec![(b"y".to_vec(), Some((vec![3u8; 20], REGULAR_FILE_MODE)))]);
}

#[test]
fn empty_path_is_refused() {
    let mut t = FileTree::new();
    assert_eq!(t.add_file(Vec::new(), id(1)), Err(TreeError::EmptyPath));
    assert_eq!(t.len(), 0);
}

#[test]
fn insert_keeps_given_mode() {
    let mut t = FileTree::new();
    t.insert(path("bin/run"), id(4), 0o100755).unwrap();
    assert_eq!(listing(&t, "bin"), vec![(b"run".to_vec(), Some((vec![4u8; 20], 0o100755)))]);
    assert!(listing(&t, "bin/run").is_empty());
    assert!(listing(&t, "other").is_empty());
}

#[test]
fn stream_entries() {
    assert_eq!(entry_action(true, false), EntryAction::Skip);
    assert_eq!(entry_action(true, true), EntryAction::Skip);
    assert_eq!(entry_action(false, true), EntryAction::Store);
    assert_eq!(entry_action(false, false), EntryAction::MissingData);
}

/// Reads the files back out of a plan, starting at its last job.
fn expand(jobs: &[TreeJob], k: usize, dir: &[Vec<u8>], out: &mut Vec<(Vec<Vec<u8>>, Vec<u8>, u32)>) {
    for e in &jobs[k].entries {
        let mut p = dir.to_vec();
        p.push(e.name.clone());
        match &e.target {
            PlannedTarget::File(id, mode) => out.push((p, id.bytes.clone(), *mode)),
            PlannedTarget::Tree(j) => {
                assert!(*j < k);
                expand(jobs, *j, &p, out)
            }
        }
    }
}

fn persisted(t: &FileTree) -> Vec<(Vec<Vec<u8>>, Vec<u8>, u32)> {
    let jobs = t.persist_plan();
    let mut out = Vec::new();
    expand(&jobs, jobs.len() - 1, &[], &mut out);
    out.sort();
    out
}

#[test]
fn persisting_reproduces_the_files() {
    let names = ["a/b/c", "a/b/d", "e", "a/f"];
    let mut forward = FileTree::new();
    for (i, n) in names.iter().enumerate() {
        forward.add_file(path(n), id(i as u8)).unwrap();
    }
    let mut backward = FileTree::new();
    for (i, n) in names.iter().enumerate().rev() {
        backward.add_file(path(n), id(i as u8)).unwrap();
    }
    let mut expected: Vec<_> = names
        .iter()
        .enumerate()
        .map(|(i, n)| (path(n), vec![i as u8; 20], REGULAR_FILE_MODE))
        .collect();
    expected.sort();
    assert_eq!(persisted(&forward), expected);
    assert_eq!(persisted(&backward), expected);
    // one tree each for the root, a and a/b
    assert_eq!(forward.persist_plan().len(), 3);
}

#[test]
fn empty_tree_is_one_empty_job() {
    let jobs = FileTree::new().persist_plan();
    assert_eq!(jobs.len(), 1);
    assert!(jobs[0].entries.is_empty());
}
