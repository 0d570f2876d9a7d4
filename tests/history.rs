use mid::history::{overlay_message, overlay_ref, upstream_message, CommitChains};
use mid::tree::ObjectId;

fn id(b: u8) -> ObjectId {
    ObjectId { bytes: vec![b; 20] }
}

fn bytes(v: Vec<ObjectId>) -> Vec<Vec<u8>> {
    v.into_iter().map(|o| o.bytes).collect()
}

#[test]
fn three_versions_link_both_chains() {
    let mut chains = CommitChains::new();
    let mut seen = Vec::new();
    for v in 1..=3u8 {
        let upstream_parents = bytes(chains.upstream_parents());
        let upstream = id(10 + v);
        let overlay_parents = bytes(chains.overlay_parents(&upstream));
        let overlay = id(20 + v);
        seen.push((upstream_parents, overlay_parents));
        chains.advance(upstream, overlay);
    }
    assert_eq!(seen[0].0, Vec::<Vec<u8>>::new());
    assert_eq!(seen[0].1, vec![vec![11u8; 20]]);
    assert_eq!(seen[1].0, vec![vec![11u8; 20]]);
    assert_eq!(seen[1].1, vec![vec![21u8; 20], vec![12u8; 20]]);
    assert_eq!(seen[2].0, vec![vec![12u8; 20]]);
    assert_eq!(seen[2].1, vec![vec![22u8; 20], vec![13u8; 20]]);
    assert_eq!(chains.upstream_tip().unwrap().bytes, vec![13u8; 20]);
    assert_eq!(chains.overlay_tip().unwrap().bytes, vec![23u8; 20]);
}

#[test]
fn fresh_chains_have_no_tips() {
    let chains = CommitChains::new();
    assert!(chains.upstream_tip().is_none());
    assert!(chains.overlay_tip().is_none());
}

#[test]
fn commit_texts() {
    assert_eq!(upstream_message("bash", "4.3-1"), "Repacked bash:4.3-1");
    assert_eq!(overlay_message("bash", "4.3-1"), "Adding /debian/ from bash:4.3-1");
    assert_eq!(overlay_ref("4.3-1"), "refs/heads/skip-patches-4.3-1");
}
