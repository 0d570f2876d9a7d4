//! The two commit chains of a package's history.
//!
//! Each version gets an upstream commit, whose parent is the previous
//! upstream commit, and an overlay commit, whose tree adds the packaging
//! metadata under `debian` and whose parents are the previous overlay
//! commit and this version's upstream commit. The chains are built one
//! version at a time: the caller writes the commits these functions
//! describe and hands back their ids.
use vstd::prelude::*;

use crate::text::push_str;
use crate::tree::{ObjectId, DIRECTORY_MODE};

verus! {

/// The reference that the upstream chain advances.
pub const UPSTREAM_REF: &'static str = "refs/heads/repacked";

/// The name under which an overlay tree holds the packaging metadata.
pub const OVERLAY_ENTRY: &'static str = "debian";

/// The mode of the metadata entry of an overlay tree.
pub const OVERLAY_ENTRY_MODE: u32 = DIRECTORY_MODE;

/// The synthetic identity that authors and commits every commit.
pub const COMMITTER_NAME: &'static str = "mid";

pub const COMMITTER_EMAIL: &'static str = "mid@goeswhere.com";

/// The timestamp of every commit, in seconds since the epoch.
pub const COMMIT_TIME: i64 = 0;

/// The tips of both chains, as values.
pub type TipsView = (Option<Seq<u8>>, Option<Seq<u8>>);

pub open spec fn oids_view(v: Seq<ObjectId>) -> Seq<Seq<u8>> {
    v.map_values(|o: ObjectId| o@)
}

/// The parents of the next upstream commit.
pub open spec fn upstream_parents_spec(t: TipsView) -> Seq<Seq<u8>> {
    match t.0 {
        Some(u) => seq![u],
        None => Seq::empty(),
    }
}

/// The parents of the next overlay commit, given this version's upstream
/// commit `u`.
pub open spec fn overlay_parents_spec(t: TipsView, u: Seq<u8>) -> Seq<Seq<u8>> {
    match t.1 {
        Some(o) => seq![o, u],
        None => seq![u],
    }
}

/// The tips once the commits of one more version are written.
pub open spec fn advance_spec(t: TipsView, ids: (Seq<u8>, Seq<u8>)) -> TipsView {
    (Some(ids.0), Some(ids.1))
}

/// The tips after the first `k` versions, whose (upstream, overlay)
/// commits are `ids`.
pub open spec fn tips_after(ids: Seq<(Seq<u8>, Seq<u8>)>, k: int) -> TipsView
    decreases k,
{
    if k <= 0 {
        (None, None)
    } else {
        advance_spec(tips_after(ids, k - 1), ids[k - 1])
    }
}

/// In a history built in order, the upstream commit of each version but
/// the first has exactly the previous upstream commit as parent, and its
/// overlay commit has exactly the previous overlay commit and its own
/// upstream commit, in that order.
pub proof fn lemma_chain_linkage(ids: Seq<(Seq<u8>, Seq<u8>)>, k: int)
    requires
        0 <= k < ids.len(),
    ensures
        upstream_parents_spec(tips_after(ids, k)) == (if k == 0 {
            Seq::<Seq<u8>>::empty()
        } else {
            seq![ids[k - 1].0]
        }),
        overlay_parents_spec(tips_after(ids, k), ids[k].0) == (if k == 0 {
            seq![ids[k].0]
        } else {
            seq![ids[k - 1].1, ids[k].0]
        }),
{
}

/// The state that links the commits of successive versions.
pub struct CommitChains {
    upstream_tip: Option<ObjectId>,
    overlay_tip: Option<ObjectId>,
}

pub open spec fn opt_view(o: Option<ObjectId>) -> Option<Seq<u8>> {
    match o {
        Some(id) => Some(id@),
        None => None,
    }
}

impl View for CommitChains {
    type V = TipsView;

    closed spec fn view(&self) -> TipsView {
        (opt_view(self.upstream_tip), opt_view(self.overlay_tip))
    }
}

impl CommitChains {
    pub fn new() -> (r: CommitChains)
        ensures
            r@ == (None::<Seq<u8>>, None::<Seq<u8>>),
    {
        CommitChains { upstream_tip: None, overlay_tip: None }
    }

    /// The parents of the next upstream commit: none for the first version,
    /// else the previous upstream commit.
    pub fn upstream_parents(&self) -> (r: Vec<ObjectId>)
        ensures
            oids_view(r@) == upstream_parents_spec(self@),
    {
        let mut r: Vec<ObjectId> = Vec::new();
        match &self.upstream_tip {
            Some(u) => r.push(u.copy()),
            None => {},
        }
        proof {
            assert(oids_view(r@) =~= upstream_parents_spec(self@));
        }
        r
    }

    /// The parents of the next overlay commit: the previous overlay commit,
    /// if any, then this version's upstream commit.
    pub fn overlay_parents(&self, upstream: &ObjectId) -> (r: Vec<ObjectId>)
        ensures
            oids_view(r@) == overlay_parents_spec(self@, upstream@),
    {
        let mut r: Vec<ObjectId> = Vec::new();
        match &self.overlay_tip {
            Some(o) => r.push(o.copy()),
            None => {},
        }
        r.push(upstream.copy());
        proof {
            assert(oids_view(r@) =~= overlay_parents_spec(self@, upstream@));
        }
        r
    }

    /// Records the commits written for one more version.
    pub fn advance(&mut self, upstream: ObjectId, overlay: ObjectId)
        ensures
            final(self)@ == advance_spec(old(self)@, (upstream@, overlay@)),
    {
        self.upstream_tip = Some(upstream);
        self.overlay_tip = Some(overlay);
    }

    pub fn upstream_tip(&self) -> (r: Option<ObjectId>)
        ensures
            opt_view(r) == self@.0,
    {
        match &self.upstream_tip {
            Some(u) => Some(u.copy()),
            None => None,
        }
    }

    pub fn overlay_tip(&self) -> (r: Option<ObjectId>)
        ensures
            opt_view(r) == self@.1,
    {
        match &self.overlay_tip {
            Some(o) => Some(o.copy()),
            None => None,
        }
    }
}

/// The message of a version's upstream commit: `Repacked {package}:{version}`.
pub fn upstream_message(pkg: &str, version: &str) -> (r: String)
    ensures
        r@ == "Repacked "@ + pkg@ + ":"@ + version@,
{
    let mut r = String::new();
    push_str(&mut r, "Repacked ");
    push_str(&mut r, pkg);
    push_str(&mut r, ":");
    push_str(&mut r, version);
    proof {
        assert(Seq::<char>::empty() + "Repacked "@ =~= "Repacked "@);
    }
    r
}

/// The message of a version's overlay commit:
/// `Adding /debian/ from {package}:{version}`.
pub fn overlay_message(pkg: &str, version: &str) -> (r: String)
    ensures
        r@ == "Adding /debian/ from "@ + pkg@ + ":"@ + version@,
{
    let mut r = String::new();
    push_str(&mut r, "Adding /debian/ from ");
    push_str(&mut r, pkg);
    push_str(&mut r, ":");
    push_str(&mut r, version);
    proof {
        assert(Seq::<char>::empty() + "Adding /debian/ from "@ =~= "Adding /debian/ from "@);
    }
    r
}

/// The reference that names a version's overlay commit:
/// `refs/heads/skip-patches-{version}`.
pub fn overlay_ref(version: &str) -> (r: String)
    ensures
        r@ == "refs/heads/skip-patches-"@ + version@,
{
    let mut r = String::new();
    push_str(&mut r, "refs/heads/skip-patches-");
    push_str(&mut r, version);
    proof {
        assert(Seq::<char>::empty() + "refs/heads/skip-patches-"@ =~= "refs/heads/skip-patches-"@);
    }
    r
}

} // verus!
