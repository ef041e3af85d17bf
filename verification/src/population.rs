//! Selection for the next generation: how the agents rank by the mean score
//! of their episodes, and who stands parent to each of the places that the
//! agents not kept leave open.

use rand::rngs::StdRng;
use vstd::prelude::*;
use crate::random::below;

verus! {

/// What an agent has to show: the sum of the scores of its episodes and
/// their number. Its mean score is the one divided by the other, and means
/// are compared exactly, as fractions.
#[derive(Debug, Clone, Copy, PartialEq, Eq, Structural)]
pub struct Standing {
    pub total: u64,
    pub episodes: u64,
}

/// The mean of `a` is above the mean of `b`.
pub open spec fn higher(a: Standing, b: Standing) -> bool {
    a.total * b.episodes > b.total * a.episodes
}

/// Agent `x` ranks before agent `y`: its mean is higher, or the means are
/// equal and it comes first in the list.
pub open spec fn ranks_before(standings: Seq<Standing>, x: int, y: int) -> bool {
    higher(standings[x], standings[y]) || (!higher(standings[y], standings[x]) && x < y)
}

/// `order` lists the agents from the highest mean to the lowest, agents of
/// equal mean in the order of the list.
pub open spec fn ranked(standings: Seq<Standing>, order: Seq<usize>) -> bool {
    &&& order.len() == standings.len()
    &&& forall|k: int| 0 <= k < order.len() ==> (#[trigger] order[k]) < standings.len()
    &&& forall|a: int, b: int|
        0 <= a < b < order.len() ==> ranks_before(standings, #[trigger] order[a] as int, #[trigger] order[b] as int)
}

/// A mean above a mean that is not below a third is above the third.
pub proof fn lemma_higher_passes_on(a: Standing, b: Standing, c: Standing)
    requires
        a.episodes > 0,
        b.episodes > 0,
        c.episodes > 0,
        higher(a, b),
        !higher(c, b),
    ensures
        higher(a, c),
{
    let (at, ae) = (a.total as int, a.episodes as int);
    let (bt, be) = (b.total as int, b.episodes as int);
    let (ct, ce) = (c.total as int, c.episodes as int);
    assert(at * be * ce > bt * ae * ce) by (nonlinear_arith)
        requires
            at * be > bt * ae,
            ce > 0,
    ;
    assert(bt * ce * ae >= ct * be * ae) by (nonlinear_arith)
        requires
            bt * ce >= ct * be,
            ae > 0,
    ;
    assert(at * ce > ct * ae) by (nonlinear_arith)
        requires
            at * be * ce > bt * ae * ce,
            bt * ce * ae >= ct * be * ae,
            be > 0,
    ;
}

/// Whether the mean of `a` is above the mean of `b`.
pub fn is_higher(a: &Standing, b: &Standing) -> (above: bool)
    ensures
        above == higher(*a, *b),
{
    assert(a.total * b.episodes <= u64::MAX * u64::MAX) by (nonlinear_arith)
        requires
            a.total <= u64::MAX,
            b.episodes <= u64::MAX,
    ;
    assert(b.total * a.episodes <= u64::MAX * u64::MAX) by (nonlinear_arith)
        requires
            b.total <= u64::MAX,
            a.episodes <= u64::MAX,
    ;
    (a.total as u128) * (b.episodes as u128) > (b.total as u128) * (a.episodes as u128)
}

/// The agents from the highest mean score to the lowest; agents of equal
/// mean keep the order of the list. Every agent must have finished an
/// episode.
pub fn rank_by_mean(standings: &Vec<Standing>) -> (order: Vec<usize>)
    requires
        forall|k: int| 0 <= k < standings@.len() ==> (#[trigger] standings@[k]).episodes > 0,
    ensures
        ranked(standings@, order@),
{
    let mut order: Vec<usize> = Vec::new();
    let mut i: usize = 0;
    while i < standings.len()
        invariant
            i <= standings@.len(),
            forall|k: int| 0 <= k < standings@.len() ==> (#[trigger] standings@[k]).episodes > 0,
            order@.len() == i,
            forall|k: int| 0 <= k < order@.len() ==> (#[trigger] order@[k]) < i,
            forall|a: int, b: int|
                0 <= a < b < order@.len() ==> ranks_before(
                    standings@,
                    #[trigger] order@[a] as int,
                    #[trigger] order@[b] as int,
                ),
        decreases standings@.len() - i,
    {
        let mut p: usize = 0;
        while p < order.len() && !is_higher(&standings[i], &standings[order[p]])
            invariant
                p <= order@.len(),
                i < standings@.len(),
                order@.len() == i,
                forall|k: int| 0 <= k < order@.len() ==> (#[trigger] order@[k]) < i,
                forall|q: int|
                    0 <= q < p ==> !higher(standings@[i as int], standings@[(#[trigger] order@[q]) as int]),
            decreases order@.len() - p,
        {
            p = p + 1;
        }
        let ghost before = order@;
        order.insert(p, i);
        proof {
            let after = order@;
            assert forall|a: int, b: int| 0 <= a < b < after.len() implies ranks_before(
                standings@,
                #[trigger] after[a] as int,
                #[trigger] after[b] as int,
            ) by {
                if b == p {
                    assert(after[a] == before[a]);
                } else if a == p {
                    assert(after[b] == before[b - 1]);
                    if b - 1 > p {
                        assert(ranks_before(standings@, before[p as int] as int, before[b - 1] as int));
                        lemma_higher_passes_on(
                            standings@[i as int],
                            standings@[before[p as int] as int],
                            standings@[before[b - 1] as int],
                        );
                    }
                } else {
                    let x = if a < p {
                        a
                    } else {
                        a - 1
                    };
                    let y = if b < p {
                        b
                    } else {
                        b - 1
                    };
                    assert(after[a] == before[x]);
                    assert(after[b] == before[y]);
                    assert(ranks_before(standings@, before[x] as int, before[y] as int));
                }
            }
            assert forall|k: int| 0 <= k < after.len() implies (#[trigger] after[k]) < i + 1 by {
                if k < p {
                    assert(after[k] == before[k]);
                } else if k > p {
                    assert(after[k] == before[k - 1]);
                }
            }
        }
        i = i + 1;
    }
    order
}

/// The agent with the highest mean score, and of several with the highest
/// the last in the list; `None` for an empty list. Every agent must have
/// finished an episode.
pub fn best_by_mean(standings: &Vec<Standing>) -> (best: Option<usize>)
    requires
        forall|k: int| 0 <= k < standings@.len() ==> (#[trigger] standings@[k]).episodes > 0,
    ensures
        best is None <==> standings@.len() == 0,
        best matches Some(at) ==> {
            &&& at < standings@.len()
            &&& forall|k: int|
                0 <= k < standings@.len() ==> !higher(#[trigger] standings@[k], standings@[at as int])
            &&& forall|k: int|
                at < k < standings@.len() ==> higher(standings@[at as int], #[trigger] standings@[k])
        },
{
    if standings.len() == 0 {
        return None;
    }
    let mut at: usize = 0;
    let mut k: usize = 1;
    while k < standings.len()
        invariant
            1 <= k <= standings@.len(),
            at < k,
            forall|j: int| 0 <= j < standings@.len() ==> (#[trigger] standings@[j]).episodes > 0,
            forall|j: int| 0 <= j < k ==> !higher(#[trigger] standings@[j], standings@[at as int]),
            forall|j: int| at < j < k ==> higher(standings@[at as int], #[trigger] standings@[j]),
        decreases standings@.len() - k,
    {
        if !is_higher(&standings[at], &standings[k]) {
            proof {
                assert forall|j: int| 0 <= j < k + 1 implies !higher(
                    #[trigger] standings@[j],
                    standings@[k as int],
                ) by {
                    if j < k && higher(standings@[j], standings@[k as int]) {
                        lemma_higher_passes_on(
                            standings@[j],
                            standings@[k as int],
                            standings@[at as int],
                        );
                    }
                }
            }
            at = k;
        }
        k = k + 1;
    }
    Some(at)
}

/// For every open place of the next generation, the rank of its parent among
/// the agents kept, drawn at random. With `size` places in all and the `kept`
/// best agents carried over, `size - kept` places are open.
pub fn refill_plan(size: usize, kept: usize, rng: &mut StdRng) -> (parents: Vec<usize>)
    requires
        kept <= size,
        kept > 0 || size == 0,
    ensures
        parents@.len() == size - kept,
        forall|n: int| 0 <= n < parents@.len() ==> parents@[n] < kept,
{
    let diff = size - kept;
    let mut parents: Vec<usize> = Vec::new();
    let mut n: usize = 0;
    while n < diff
        invariant
            n <= diff,
            diff == size - kept,
            kept > 0 || size == 0,
            parents@.len() == n,
            forall|m: int| 0 <= m < parents@.len() ==> parents@[m] < kept,
        decreases diff - n,
    {
        let idx = below(rng, kept);
        parents.push(idx);
        n = n + 1;
    }
    parents
}

/// Agent `x` is one of the `kept` agents that rank highest.
pub open spec fn is_kept(order: Seq<usize>, kept: int, x: usize) -> bool {
    exists|r: int| 0 <= r < kept && #[trigger] order[r] == x
}

/// The plan gives the first `kept` places to the agents that rank highest,
/// in the order of their rank, and every other place to one of these.
pub open spec fn fills(plan: Seq<usize>, order: Seq<usize>, kept: int) -> bool {
    &&& plan.len() == order.len()
    &&& forall|k: int| 0 <= k < kept ==> #[trigger] plan[k] == order[k]
    &&& forall|k: int| kept <= k < plan.len() ==> is_kept(order, kept, #[trigger] plan[k])
}

/// Who fills each place of the next generation. The first `kept` places go
/// to the agents that rank highest, in the order of their rank; every other
/// place goes to a copy of one of these, drawn at random, which is to be
/// changed before it plays. Every agent must have finished an episode.
pub fn generation_plan(standings: &Vec<Standing>, kept: usize, rng: &mut StdRng) -> (plan: Vec<
    usize,
>)
    requires
        forall|k: int| 0 <= k < standings@.len() ==> (#[trigger] standings@[k]).episodes > 0,
        kept <= standings@.len(),
        kept > 0 || standings@.len() == 0,
    ensures
        exists|order: Seq<usize>|
            ranked(standings@, order) && #[trigger] fills(plan@, order, kept as int),
{
    let order = rank_by_mean(standings);
    let parents = refill_plan(standings.len(), kept, rng);
    let mut plan: Vec<usize> = Vec::new();
    let mut k: usize = 0;
    while k < kept
        invariant
            k <= kept,
            kept <= order@.len(),
            plan@.len() == k,
            forall|m: int| 0 <= m < k ==> plan@[m] == order@[m],
        decreases kept - k,
    {
        plan.push(order[k]);
        k = k + 1;
    }
    let mut n: usize = 0;
    while n < parents.len()
        invariant
            n <= parents@.len(),
            parents@.len() == order@.len() - kept,
            kept <= order@.len(),
            forall|m: int| 0 <= m < parents@.len() ==> parents@[m] < kept,
            plan@.len() == kept + n,
            forall|m: int| 0 <= m < kept ==> #[trigger] plan@[m] == order@[m],
            forall|m: int| kept <= m < plan@.len() ==> is_kept(order@, kept as int, #[trigger] plan@[m]),
        decreases parents@.len() - n,
    {
        let r = parents[n];
        plan.push(order[r]);
        assert(order@[r as int] == plan@[kept + n]);
        n = n + 1;
    }
    assert(ranked(standings@, order@) && fills(plan@, order@, kept as int));
    plan
}

} // verus!
