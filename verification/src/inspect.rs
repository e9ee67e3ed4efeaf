//! Plain records of a tree's nodes, and how the nodes spread over the levels.

use crate::segsum::Change;
use vstd::prelude::*;

verus! {

/// What one node holds, as a plain record.
#[derive(Debug)]
pub struct NodeInfo<T> {
    /// How many steps below the root the node lies.
    pub depth: usize,
    /// The first position of the node's range.
    pub l: i64,
    /// The position after the last of the node's range.
    pub r: i64,
    /// The sum that the node has stored.
    pub s: T,
    /// The mark that the node has pending.
    pub mark: Option<Change<T>>,
}

/// How many of the records lie at `depth`.
pub open spec fn count_at<T>(infos: Seq<NodeInfo<T>>, depth: int) -> nat
    decreases infos.len(),
{
    if infos.len() == 0 {
        0
    } else {
        let rest = count_at(infos.drop_last(), depth);
        if infos.last().depth == depth {
            rest + 1
        } else {
            rest
        }
    }
}

/// At most as many of the records lie at one depth as there are records.
pub proof fn lemma_count_at_most<T>(infos: Seq<NodeInfo<T>>, depth: int)
    ensures
        count_at(infos, depth) <= infos.len(),
    decreases infos.len(),
{
    if infos.len() > 0 {
        lemma_count_at_most(infos.drop_last(), depth);
    }
}

/// The number of records at each depth: `counts[d]` of them lie at depth `d`,
/// and `counts` ends at the greatest depth that occurs.
pub fn depth_counts<T>(infos: &Vec<NodeInfo<T>>) -> (counts: Vec<usize>)
    requires
        forall|i: int| 0 <= i < infos.len() ==> infos[i].depth < usize::MAX,
    ensures
        forall|d: int| 0 <= d < counts.len() ==> counts[d] == count_at(infos@, d),
        forall|d: int| d >= counts.len() ==> count_at(infos@, d) == 0,
        counts.len() > 0 ==> counts[counts.len() - 1] > 0,
{
    let mut counts: Vec<usize> = Vec::new();
    let mut i: usize = 0;
    while i < infos.len()
        invariant
            i <= infos.len(),
            forall|k: int| 0 <= k < infos.len() ==> infos[k].depth < usize::MAX,
            forall|d: int|
                0 <= d < counts.len() ==> counts[d] == count_at(infos@.take(i as int), d),
            forall|d: int| d >= counts.len() ==> count_at(infos@.take(i as int), d) == 0,
            counts.len() > 0 ==> counts[counts.len() - 1] > 0,
        decreases infos.len() - i,
    {
        let depth: usize = infos[i].depth;
        let ghost seen = infos@.take(i as int);
        while counts.len() <= depth
            invariant
                depth < usize::MAX,
                forall|d: int| 0 <= d < counts.len() ==> counts[d] == count_at(seen, d),
                forall|d: int| d >= counts.len() ==> count_at(seen, d) == 0,
                counts.len() > depth + 1 ==> counts[counts.len() - 1] > 0,
            decreases depth + 1 - counts.len(),
        {
            counts.push(0);
        }
        let c: usize = counts[depth];
        proof {
            let next = infos@.take(i as int + 1);
            assert(next.drop_last() =~= seen);
            assert(next.last() == infos[i as int]);
            lemma_count_at_most(seen, depth as int);
            assert forall|d: int| d >= counts.len() implies count_at(next, d) == 0 by {
                assert(count_at(seen, d) == 0);
            }
        }
        counts.set(depth, c + 1);
        i = i + 1;
    }
    proof {
        assert(infos@.take(i as int) =~= infos@);
    }
    counts
}

} // verus!
