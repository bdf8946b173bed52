use crate::ast::{leaves, AstNode};
use crate::search::{can_complete, dfs, dfs_ready};
use crate::targets::{spec_hit, Targets};
use rayon::iter::IntoParallelIterator;
use rayon::iter::ParallelIterator;
use vstd::prelude::*;

verus! {

/// Relies on rayon's `ParallelIterator::find_map_first`: the candidates
/// are searched concurrently, each through one call of `dfs`, and the
/// call returns the sequentially first `Some` result of the closure, or
/// `None` when every call returns `None`. The two clauses restate, over
/// the candidate list, exactly what the verified contract of `dfs`
/// guarantees of each closure result: it is `Some` precisely when its
/// candidate can be completed, and any returned tree extends its
/// candidate by the pending values and hits a target.
#[verifier::external_body]
pub(crate) fn par_search(cands: Vec<(AstNode, Vec<i64>)>, prime: Targets) -> (r: Option<AstNode>)
    requires
        forall|i: int| 0 <= i < cands@.len() ==> dfs_ready(#[trigger] cands@[i].0, cands@[i].1@),
    ensures
        (r is Some) == (exists|i: int|
            0 <= i < cands@.len() && can_complete((#[trigger] cands@[i]).0, cands@[i].1@, prime)),
        r matches Some(e) ==> exists|i: int|
            0 <= i < cands@.len() && leaves(e).to_multiset() == leaves(
                (#[trigger] cands@[i]).0,
            ).to_multiset().add(cands@[i].1@.to_multiset()) && spec_hit(e, prime),
{
    cands.into_par_iter().find_map_first(|c: (AstNode, Vec<i64>)| dfs(c.0, c.1, prime))
}

} // verus!
