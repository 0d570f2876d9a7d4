//! Which directories above a starting point hold repositories.
//!
//! The caller walks from the starting directory towards the root and, for
//! each directory, probes whether it holds `.git/HEAD` and `.git/mid`; the
//! decision of what counts as a repository is made here.
use vstd::prelude::*;

verus! {

/// What the caller found in one directory.
pub struct RepoProbe {
    pub root: std::path::PathBuf,
    /// `.git/HEAD` is a file.
    pub has_git_head: bool,
    /// `.git/mid` is a directory.
    pub has_mid_dir: bool,
}

/// A repository: its root, and whether this tool made it.
pub struct TempRepo {
    pub root: std::path::PathBuf,
    pub mid: bool,
}

/// The repositories among `p`, in the same order.
pub open spec fn found_repos(p: Seq<RepoProbe>) -> Seq<TempRepo>
    decreases p.len(),
{
    if p.len() == 0 {
        Seq::empty()
    } else {
        let rest = found_repos(p.subrange(1, p.len() as int));
        if p[0].has_git_head {
            seq![TempRepo { root: p[0].root, mid: p[0].has_mid_dir }] + rest
        } else {
            rest
        }
    }
}

/// The probed directories that hold a repository, nearest first.
pub fn find_repos(probes: Vec<RepoProbe>) -> (r: Vec<TempRepo>)
    ensures
        r@ == found_repos(probes@),
{
    let ghost all = probes@;
    let mut probes = probes;
    let mut r: Vec<TempRepo> = Vec::new();
    while probes.len() > 0
        invariant
            found_repos(all) == r@ + found_repos(probes@),
        decreases probes.len(),
    {
        let ghost before = probes@;
        let p = probes.remove(0);
        proof {
            assert(probes@ =~= before.subrange(1, before.len() as int));
        }
        if p.has_git_head {
            let ghost old_r = r@;
            r.push(TempRepo { root: p.root, mid: p.has_mid_dir });
            proof {
                assert(old_r + (seq![r@[old_r.len() as int]] + found_repos(probes@)) =~= r@
                    + found_repos(probes@));
            }
        }
    }
    proof {
        assert(r@ + Seq::<TempRepo>::empty() =~= r@);
    }
    r
}

impl TempRepo {
    /// `mid` for a repository this tool made, `git` for any other.
    pub fn kind_label(&self) -> (r: &'static str)
        ensures
            r@ == (if self.mid {
                "mid"@
            } else {
                "git"@
            }),
    {
        if self.mid {
            "mid"
        } else {
            "git"
        }
    }
}

} // verus!
