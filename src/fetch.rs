//! Naming of chunk indices and deduplication of the chunks they reference.

use vstd::prelude::*;
use vstd::set_lib::*;

use crate::keyed::{copy_bytes, equal_bytes};
use crate::text::push_str;

verus! {

/// The directory prefix under which a package's indices are stored: the
/// first four characters for a name that starts with "lib" and is longer
/// than three characters, the first character otherwise.
pub open spec fn spec_prefix(pkg: Seq<char>) -> Seq<char> {
    if pkg.len() > 3 && pkg[0] == 'l' && pkg[1] == 'i' && pkg[2] == 'b' {
        pkg.subrange(0, 4)
    } else {
        pkg.subrange(0, 1)
    }
}

/// Directory prefix of a package name in the chunk-index namespace.
pub fn prefix_of(pkg: &str) -> (r: &str)
    requires
        pkg@.len() > 0,
    ensures
        r@ == spec_prefix(pkg@),
{
    let n = pkg.unicode_len();
    if n > 3 && pkg.get_char(0) == 'l' && pkg.get_char(1) == 'i' && pkg.get_char(2) == 'b' {
        pkg.substring_char(0, 4)
    } else {
        pkg.substring_char(0, 1)
    }
}

/// The path of the chunk index of one version of a package, relative to
/// the mirror: `data/{kind}/{prefix}/{package}/{version}.caidx`.
pub open spec fn spec_index_path(kind: Seq<char>, pkg: Seq<char>, version: Seq<char>) -> Seq<char> {
    "data/"@ + kind + "/"@ + spec_prefix(pkg) + "/"@ + pkg + "/"@ + version + ".caidx"@
}

pub fn index_path(kind: &str, pkg: &str, version: &str) -> (r: String)
    requires
        pkg@.len() > 0,
    ensures
        r@ == spec_index_path(kind@, pkg@, version@),
{
    let mut r = String::new();
    push_str(&mut r, "data/");
    push_str(&mut r, kind);
    push_str(&mut r, "/");
    push_str(&mut r, prefix_of(pkg));
    push_str(&mut r, "/");
    push_str(&mut r, pkg);
    push_str(&mut r, "/");
    push_str(&mut r, version);
    push_str(&mut r, ".caidx");
    proof {
        assert(Seq::<char>::empty() + "data/"@ =~= "data/"@);
    }
    r
}

/// The default index of a kind's store: `data/{kind}/default.castr`.
pub fn default_index_path(kind: &str) -> (r: String)
    ensures
        r@ == "data/"@ + kind@ + "/default.castr"@,
{
    let mut r = String::new();
    push_str(&mut r, "data/");
    push_str(&mut r, kind);
    push_str(&mut r, "/default.castr");
    proof {
        assert(Seq::<char>::empty() + "data/"@ =~= "data/"@);
    }
    r
}

/// The name of a kind's directory in the local cache: `{kind}.castr`.
pub fn cache_dir_name(kind: &str) -> (r: String)
    ensures
        r@ == kind@ + ".castr"@,
{
    let mut r = String::new();
    push_str(&mut r, kind);
    push_str(&mut r, ".castr");
    proof {
        assert(Seq::<char>::empty() + kind@ =~= kind@);
    }
    r
}

/// The content hash that names one chunk.
pub struct ChunkId {
    pub bytes: Vec<u8>,
}

impl View for ChunkId {
    type V = Seq<u8>;

    open spec fn view(&self) -> Seq<u8> {
        self.bytes@
    }
}

pub open spec fn ids_view(v: Seq<ChunkId>) -> Seq<Seq<u8>> {
    v.map_values(|c: ChunkId| c@)
}

pub open spec fn indices_view(v: Seq<Vec<ChunkId>>) -> Seq<Seq<Seq<u8>>> {
    v.map_values(|x: Vec<ChunkId>| ids_view(x@))
}

/// Every chunk that some index refers to.
pub open spec fn all_chunks(ix: Seq<Seq<Seq<u8>>>) -> Set<Seq<u8>> {
    Set::new(
        |c: Seq<u8>|
            exists|v: int, k: int| 0 <= v < ix.len() && 0 <= k < ix[v].len() && #[trigger] ix[v][k] == c,
    )
}

fn contains_id(r: &Vec<ChunkId>, c: &ChunkId) -> (found: bool)
    ensures
        found <==> exists|i: int| 0 <= i < r.len() && #[trigger] r@[i]@ == c@,
{
    let mut i: usize = 0;
    while i < r.len()
        invariant
            i <= r.len(),
            forall|t: int| 0 <= t < i ==> #[trigger] r@[t]@ != c@,
        decreases r.len() - i,
    {
        if equal_bytes(&r[i].bytes, &c.bytes) {
            assert(r@[i as int]@ == c@);
            return true;
        }
        i += 1;
    }
    false
}

/// The chunks that the first `v` indices refer to.
pub open spec fn chunks_of_first(ix: Seq<Seq<Seq<u8>>>, v: int) -> Set<Seq<u8>> {
    Set::new(
        |c: Seq<u8>|
            exists|v2: int, k: int| 0 <= v2 < v && 0 <= k < ix[v2].len() && #[trigger] ix[v2][k] == c,
    )
}

/// Appends to `r` the chunks of `chunks` that it does not hold yet.
fn append_new(r: &mut Vec<ChunkId>, chunks: &Vec<ChunkId>)
    requires
        ids_view(old(r)@).no_duplicates(),
    ensures
        ids_view(final(r)@).no_duplicates(),
        ids_view(final(r)@).to_set() == ids_view(old(r)@).to_set() + ids_view(chunks@).to_set(),
{
    let ghost start = ids_view(r@).to_set();
    let ghost cv = ids_view(chunks@);
    let mut k: usize = 0;
    proof {
        assert(start + cv.subrange(0, 0).to_set() =~= start);
    }
    while k < chunks.len()
        invariant
            k <= chunks.len(),
            cv == ids_view(chunks@),
            start == ids_view(old(r)@).to_set(),
            ids_view(r@).no_duplicates(),
            ids_view(r@).to_set() == start + cv.subrange(0, k as int).to_set(),
        decreases chunks.len() - k,
    {
        let ghost before = ids_view(r@);
        let ghost c = chunks@[k as int]@;
        assert(cv[k as int] == c);
        proof {
            let s1 = cv.subrange(0, k + 1);
            let s0 = cv.subrange(0, k as int);
            assert forall|x: Seq<u8>| #[trigger] s1.contains(x) <==> (s0.contains(x) || x == c) by {
                if s1.contains(x) {
                    let t = choose|t: int| 0 <= t < s1.len() && #[trigger] s1[t] == x;
                    if t < k {
                        assert(s0[t] == x);
                    }
                }
                if s0.contains(x) {
                    let t = choose|t: int| 0 <= t < s0.len() && #[trigger] s0[t] == x;
                    assert(s1[t] == x);
                }
                if x == c {
                    assert(s1[k as int] == x);
                }
            }
        }
        if contains_id(r, &chunks[k]) {
            proof {
                let i = choose|i: int| 0 <= i < r.len() && #[trigger] r@[i]@ == c;
                assert(before[i] == c);
                assert(ids_view(r@).to_set() =~= start + cv.subrange(0, k + 1).to_set());
            }
        } else {
            r.push(ChunkId { bytes: copy_bytes(&chunks[k].bytes) });
            proof {
                let after = ids_view(r@);
                assert(after =~= before.push(c));
                assert forall|i: int| 0 <= i < before.len() implies before[i] != c by {
                    assert(r@[i]@ == before[i]);
                }
                assert forall|i: int, j: int|
                    0 <= i < after.len() && 0 <= j < after.len() && i != j implies after[i]
                    != after[j] by {
                    if i < before.len() && j < before.len() {
                        assert(before[i] != before[j]);
                    }
                }
                assert forall|x: Seq<u8>| after.contains(x) <==> (before.contains(x) || x == c) by {
                    if after.contains(x) {
                        let t = choose|t: int| 0 <= t < after.len() && after[t] == x;
                        if t < before.len() {
                            assert(before[t] == x);
                        }
                    }
                    if before.contains(x) {
                        let t = choose|t: int| 0 <= t < before.len() && before[t] == x;
                        assert(after[t] == x);
                    }
                    if x == c {
                        assert(after[before.len() as int] == x);
                    }
                }
                let s1 = cv.subrange(0, k + 1);
                let s0 = cv.subrange(0, k as int);
                assert forall|x: Seq<u8>| after.to_set().contains(x) <==> (start + s1.to_set()).contains(
                    x,
                ) by {
                    assert(s1.contains(x) <==> (s0.contains(x) || x == c));
                    assert(before.to_set().contains(x) <==> (start + s0.to_set()).contains(x));
                }
                assert(after.to_set() =~= start + s1.to_set());
            }
        }
        k += 1;
    }
    proof {
        assert(cv.subrange(0, chunks.len() as int) =~= cv);
    }
}

/// The chunks that the indices of all versions refer to, each once, in
/// order of first reference: the set that one fetch pass must bring.
pub fn required_chunks(indices: &Vec<Vec<ChunkId>>) -> (r: Vec<ChunkId>)
    ensures
        ids_view(r@).no_duplicates(),
        ids_view(r@).to_set() == all_chunks(indices_view(indices@)),
{
    let ghost ix = indices_view(indices@);
    let mut r: Vec<ChunkId> = Vec::new();
    let mut v: usize = 0;
    proof {
        assert(ids_view(r@).to_set() =~= chunks_of_first(ix, 0));
    }
    while v < indices.len()
        invariant
            v <= indices.len(),
            ix == indices_view(indices@),
            ids_view(r@).no_duplicates(),
            ids_view(r@).to_set() == chunks_of_first(ix, v as int),
        decreases indices.len() - v,
    {
        append_new(&mut r, &indices[v]);
        proof {
            let cv = ix[v as int];
            assert(cv == ids_view(indices@[v as int]@));
            assert forall|c: Seq<u8>| #[trigger] chunks_of_first(ix, v + 1).contains(c) <==> (
            chunks_of_first(ix, v as int).contains(c) || cv.to_set().contains(c)) by {
                if chunks_of_first(ix, v + 1).contains(c) {
                    let (v2, k) = choose|v2: int, k: int|
                        0 <= v2 < v + 1 && 0 <= k < ix[v2].len() && #[trigger] ix[v2][k] == c;
                    if v2 == v {
                        assert(cv[k] == c);
                        assert(cv.contains(c));
                    }
                }
                if cv.contains(c) {
                    let k = choose|k: int| 0 <= k < cv.len() && cv[k] == c;
                    assert(ix[v as int][k] == c);
                }
                if chunks_of_first(ix, v as int).contains(c) {
                    let (v2, k) = choose|v2: int, k: int|
                        0 <= v2 < v && 0 <= k < ix[v2].len() && #[trigger] ix[v2][k] == c;
                    assert(ix[v2][k] == c);
                }
            }
            assert(ids_view(r@).to_set() =~= chunks_of_first(ix, v + 1));
        }
        v += 1;
    }
    proof {
        assert(chunks_of_first(ix, ix.len() as int) =~= all_chunks(ix));
    }
    r
}

/// Across two versions whose indices each name a chunk at most once, one
/// fetch pass brings as many chunks as both indices hold together, less
/// those they share.
pub proof fn lemma_fetch_count(a: Seq<Seq<u8>>, b: Seq<Seq<u8>>, r: Seq<Seq<u8>>)
    requires
        a.no_duplicates(),
        b.no_duplicates(),
        r.no_duplicates(),
        r.to_set() == all_chunks(seq![a, b]),
    ensures
        r.len() == a.len() + b.len() - a.to_set().intersect(b.to_set()).len(),
{
    let ix = seq![a, b];
    assert forall|c: Seq<u8>| #[trigger] all_chunks(ix).contains(c) <==> (a.to_set() + b.to_set()).contains(c) by {
        if all_chunks(ix).contains(c) {
            let (v, k) = choose|v: int, k: int|
                0 <= v < ix.len() && 0 <= k < ix[v].len() && #[trigger] ix[v][k] == c;
            if v == 0 {
                assert(a[k] == c);
                assert(a.contains(c));
            } else {
                assert(b[k] == c);
                assert(b.contains(c));
            }
        }
        if a.contains(c) {
            let k = choose|k: int| 0 <= k < a.len() && a[k] == c;
            assert(ix[0][k] == c);
        }
        if b.contains(c) {
            let k = choose|k: int| 0 <= k < b.len() && b[k] == c;
            assert(ix[1][k] == c);
        }
    }
    assert(all_chunks(ix) =~= a.to_set() + b.to_set());
    r.unique_seq_to_set();
    a.unique_seq_to_set();
    b.unique_seq_to_set();
    lemma_set_intersect_union_lens(a.to_set(), b.to_set());
}

} // verus!
