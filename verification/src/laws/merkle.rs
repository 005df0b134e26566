//! What merging the nodes of a map keeps.

use vstd::prelude::*;

use crate::path_map::hash_scheme::HashScheme;
use crate::path_map::map::PathMap;
use crate::path_map::merkleization::{merkleized, MerkleizeResult};

verus! {

/// Merging a second time changes nothing, and gives the hash it gave the first time. That is so
/// whatever the scheme: also where it gives one hash to different tries.
pub proof fn law_merkleize_twice<V, S: HashScheme<V>>(
    s: &S,
    first: &PathMap<V>,
    second: &PathMap<V>,
    third: &PathMap<V>,
    r1: MerkleizeResult,
    r2: MerkleizeResult,
)
    requires
        merkleized(s, first, second, r1),
        merkleized(s, second, third, r2),
    ensures
        r2 == (MerkleizeResult { hash: r1.hash, reused: 0, cloned: 0, replaced: 0 }),
        third.trie() == second.trie(),
        third.made() == second.made(),
        forall|p: Seq<u8>| #[trigger] third.share(p) == second.share(p),
{
}

/// The statistics go together: of the nodes with edges all are re-used but one for each hash, nodes are
/// copied only where references are replaced, and references are replaced only where nodes are
/// re-used.
pub proof fn law_statistics_go_together<V, S: HashScheme<V>>(
    s: &S,
    before: &PathMap<V>,
    after: &PathMap<V>,
    r: MerkleizeResult,
)
    requires
        merkleized(s, before, after, r),
    ensures
        r.cloned <= r.replaced,
        r.replaced > 0 ==> r.cloned > 0 && r.reused > 0,
        r.reused == 0 ==> r.replaced == 0 && r.cloned == 0 && after.trie() == before.trie()
            && after.made() == before.made(),
        r.reused + before.edge_hashes(s).len() == before.edge_nodes().len(),
{
}

/// The statistics tell how many references lead to nodes in whose place others come, and how many nodes
/// hold such a reference, as far as there are numbers for it.
pub proof fn law_statistics_count<V, S: HashScheme<V>>(
    s: &S,
    before: &PathMap<V>,
    after: &PathMap<V>,
    r: MerkleizeResult,
    edges: Set<(nat, int)>,
    holders: Set<nat>,
)
    requires
        before.wf(),
        merkleized(s, before, after, r),
        forall|a: nat, e: int| #[trigger]
            edges.contains((a, e)) <==> before.edge_order().contains(a) && 0 <= e < before.items_at(
                a as usize,
            )@.len() && before.leads_astray(s, a as usize, e),
        forall|a: nat| #[trigger]
            holders.contains(a) <==> exists|e: int| #[trigger] edges.contains((a, e)),
    ensures
        edges.finite(),
        holders.finite(),
        edges.len() <= usize::MAX ==> r.replaced == edges.len(),
        edges.len() > usize::MAX ==> r.replaced == usize::MAX,
        holders.len() <= usize::MAX ==> r.cloned == holders.len(),
        holders.len() > usize::MAX ==> r.cloned == usize::MAX,
{
    before.law_redirected_references(s, edges, holders);
}

} // verus!
