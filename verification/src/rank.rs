//! Deterministic ranking of processed messages.
//!
//! Messages are ordered by total reactions, strictly descending, with
//! ties broken by their position in the processor's output (which is
//! input order): a stable sort. The result is truncated to the
//! requested limit.

use vstd::prelude::*;
use crate::process::ProcessedMessage;

verus! {

/// Position `a` ranks before position `b`: strictly more reactions, or
/// equal reactions and an earlier input position.
pub open spec fn ranks_before(totals: Seq<u128>, a: usize, b: usize) -> bool {
    totals[a as int] > totals[b as int] || (totals[a as int] == totals[b as int] && a < b)
}

/// Every element of `s` is an index below `n`.
pub open spec fn in_range(s: Seq<usize>, n: int) -> bool {
    forall|i: int| 0 <= i < s.len() ==> (#[trigger] s[i]) < n
}

/// The sequence is ordered by `ranks_before`.
pub open spec fn ordered(totals: Seq<u128>, s: Seq<usize>) -> bool {
    forall|i: int, j: int|
        0 <= i < j < s.len() ==> #[trigger] ranks_before(totals, s[i], s[j])
}

/// Insertion of index `k` in front of the first position it outranks.
pub open spec fn ordered_insert(totals: Seq<u128>, k: usize, s: Seq<usize>) -> Seq<usize>
    decreases s.len(),
{
    if s.len() == 0 {
        seq![k]
    } else if ranks_before(totals, k, s[0]) {
        seq![k] + s
    } else {
        seq![s[0]] + ordered_insert(totals, k, s.drop_first())
    }
}

/// The ranking order of positions `0..n`, built by inserting each
/// position in turn.
pub open spec fn rank_order(totals: Seq<u128>, n: int) -> Seq<usize>
    decreases n,
{
    if n <= 0 {
        Seq::empty()
    } else {
        ordered_insert(totals, (n - 1) as usize, rank_order(totals, n - 1))
    }
}

proof fn lemma_insert(totals: Seq<u128>, k: usize, s: Seq<usize>)
    requires
        ordered(totals, s),
        in_range(s, k as int),
    ensures
        ordered(totals, ordered_insert(totals, k, s)),
        in_range(ordered_insert(totals, k, s), k as int + 1),
        ordered_insert(totals, k, s).len() == s.len() + 1,
        forall|e: usize| #[trigger]
            ordered_insert(totals, k, s).contains(e) <==> (s.contains(e) || e == k),
    decreases s.len(),
{
    let r = ordered_insert(totals, k, s);
    if s.len() == 0 {
        assert forall|e: usize| #[trigger] r.contains(e) implies (s.contains(e) || e == k) by {
            let w: int = choose|w: int| 0 <= w < r.len() && r[w] == e;
            assert(r[0] == k);
        }
        assert(r.contains(k)) by {
            assert(r[0] == k);
        }
    } else if ranks_before(totals, k, s[0]) {
        assert(r == seq![k] + s);
        assert forall|i: int, j: int| 0 <= i < j < r.len() implies #[trigger] ranks_before(
            totals,
            r[i],
            r[j],
        ) by {
            if i == 0 {
                assert(s[0] < k);
                if j > 1 {
                    assert(ranks_before(totals, s[0], s[j - 1]));
                }
                assert(r[j] == s[j - 1]);
            } else {
                assert(r[i] == s[i - 1] && r[j] == s[j - 1]);
                assert(ranks_before(totals, s[i - 1], s[j - 1]));
            }
        }
        assert forall|e: usize| #[trigger] r.contains(e) implies (s.contains(e) || e == k) by {
            let w: int = choose|w: int| 0 <= w < r.len() && r[w] == e;
            if w > 0 {
                assert(s[w - 1] == e);
            }
        }
        assert forall|e: usize| (s.contains(e) || e == k) implies #[trigger] r.contains(e) by {
            if s.contains(e) {
                let w: int = choose|w: int| 0 <= w < s.len() && s[w] == e;
                assert(r[w + 1] == e);
            } else {
                assert(r[0] == e);
            }
        }
    } else {
        let tail = s.drop_first();
        assert(in_range(tail, k as int)) by {
            assert(forall|i: int| 0 <= i < tail.len() ==> #[trigger] tail[i] == s[i + 1]);
        }
        assert(ordered(totals, tail)) by {
            assert forall|i: int, j: int| 0 <= i < j < tail.len() implies #[trigger] ranks_before(
                totals,
                tail[i],
                tail[j],
            ) by {
                assert(tail[i] == s[i + 1] && tail[j] == s[j + 1]);
                assert(ranks_before(totals, s[i + 1], s[j + 1]));
            }
        }
        lemma_insert(totals, k, tail);
        let rt = ordered_insert(totals, k, tail);
        assert(r == seq![s[0]] + rt);
        assert(s[0] < k);
        assert forall|i: int, j: int| 0 <= i < j < r.len() implies #[trigger] ranks_before(
            totals,
            r[i],
            r[j],
        ) by {
            if i == 0 {
                let e = r[j];
                assert(rt[j - 1] == e);
                assert(rt.contains(e));
                if e == k {
                    assert(ranks_before(totals, s[0], k));
                } else {
                    assert(tail.contains(e));
                    let w: int = choose|w: int| 0 <= w < tail.len() && tail[w] == e;
                    assert(s[w + 1] == e);
                    assert(ranks_before(totals, s[0], s[w + 1]));
                }
            } else {
                assert(r[i] == rt[i - 1] && r[j] == rt[j - 1]);
                assert(ranks_before(totals, rt[i - 1], rt[j - 1]));
            }
        }
        assert forall|e: usize| #[trigger] r.contains(e) implies (s.contains(e) || e == k) by {
            let w: int = choose|w: int| 0 <= w < r.len() && r[w] == e;
            if w == 0 {
                assert(s[0] == e);
            } else {
                assert(rt[w - 1] == e);
                assert(rt.contains(e));
                if e != k {
                    assert(tail.contains(e));
                    let v: int = choose|v: int| 0 <= v < tail.len() && tail[v] == e;
                    assert(s[v + 1] == e);
                }
            }
        }
        assert forall|e: usize| (s.contains(e) || e == k) implies #[trigger] r.contains(e) by {
            if s.contains(e) {
                let w: int = choose|w: int| 0 <= w < s.len() && s[w] == e;
                if w == 0 {
                    assert(r[0] == e);
                } else {
                    assert(tail[w - 1] == e);
                    assert(tail.contains(e));
                    assert(rt.contains(e));
                    let v: int = choose|v: int| 0 <= v < rt.len() && rt[v] == e;
                    assert(r[v + 1] == e);
                }
            } else {
                assert(rt.contains(k));
                let v: int = choose|v: int| 0 <= v < rt.len() && rt[v] == k;
                assert(r[v + 1] == k);
            }
        }
    }
}

/// The ranking order of `n` positions is an ordered arrangement of
/// indices below `n`, one each.
pub proof fn lemma_rank_order_props(totals: Seq<u128>, n: int)
    requires
        0 <= n <= usize::MAX,
    ensures
        rank_order(totals, n).len() == n,
        in_range(rank_order(totals, n), n),
        ordered(totals, rank_order(totals, n)),
    decreases n,
{
    if n > 0 {
        lemma_rank_order_props(totals, n - 1);
        lemma_insert(totals, (n - 1) as usize, rank_order(totals, n - 1));
    }
}

/// Inserting at the first position that the new index outranks is what
/// `ordered_insert` does.
proof fn lemma_insert_position(totals: Seq<u128>, k: usize, s: Seq<usize>, pos: int)
    requires
        0 <= pos <= s.len(),
        forall|j: int| 0 <= j < pos ==> !ranks_before(totals, k, #[trigger] s[j]),
        pos < s.len() ==> ranks_before(totals, k, s[pos]),
    ensures
        ordered_insert(totals, k, s) == s.take(pos) + seq![k] + s.skip(pos),
    decreases s.len(),
{
    if s.len() == 0 {
        assert(ordered_insert(totals, k, s) =~= s.take(pos) + seq![k] + s.skip(pos));
    } else if ranks_before(totals, k, s[0]) {
        assert(pos == 0);
        assert(seq![k] + s =~= s.take(0) + seq![k] + s.skip(0));
    } else {
        assert(pos >= 1);
        let tail = s.drop_first();
        assert(forall|j: int| 0 <= j < pos - 1 ==> !ranks_before(totals, k, #[trigger] tail[j]));
        lemma_insert_position(totals, k, tail, pos - 1);
        assert(seq![s[0]] + (tail.take(pos - 1) + seq![k] + tail.skip(pos - 1)) =~= s.take(pos)
            + seq![k] + s.skip(pos));
    }
}

/// Computes the ranking order of the given totals.
fn compute_rank_order(totals: &Vec<u128>) -> (idx: Vec<usize>)
    ensures
        idx@ == rank_order(totals@, totals@.len() as int),
{
    let n: usize = totals.len();
    let mut idx: Vec<usize> = Vec::new();
    let mut k: usize = 0;
    while k < n
        invariant
            k <= n,
            n == totals@.len(),
            idx@ == rank_order(totals@, k as int),
        decreases n - k,
    {
        proof {
            lemma_rank_order_props(totals@, k as int);
        }
        let mut pos: usize = 0;
        while pos < idx.len() && totals[idx[pos]] >= totals[k]
            invariant
                pos <= idx@.len(),
                k < n,
                n == totals@.len(),
                idx@ == rank_order(totals@, k as int),
                idx@.len() == k as int,
                in_range(idx@, k as int),
                forall|j: int| 0 <= j < pos ==> !ranks_before(totals@, k, #[trigger] idx@[j]),
            decreases idx@.len() - pos,
        {
            pos = pos + 1;
        }
        proof {
            lemma_insert_position(totals@, k, idx@, pos as int);
        }
        let ghost before_insert: Seq<usize> = idx@;
        idx.insert(pos, k);
        proof {
            assert(idx@ =~= before_insert.take(pos as int) + seq![k] + before_insert.skip(
                pos as int,
            ));
        }
        k = k + 1;
    }
    idx
}

/// The reaction totals of a processed sequence, position by position.
pub open spec fn totals_of(ms: Seq<ProcessedMessage>) -> Seq<u128> {
    ms.map_values(|m: ProcessedMessage| m.total_reactions)
}

/// The ranked output: the ranking order of all positions, truncated to
/// the limit, read back as messages.
pub open spec fn ranked_prefix(ms: Seq<ProcessedMessage>, limit: int) -> Seq<ProcessedMessage> {
    let cut = if limit <= ms.len() {
        limit
    } else {
        ms.len() as int
    };
    rank_order(totals_of(ms), ms.len() as int).take(cut).map_values(|k: usize| ms[k as int])
}

/// Orders the processed messages by total reactions descending, stably,
/// and truncates to at most `limit` entries.
pub fn rank_messages(msgs: &Vec<ProcessedMessage>, limit: usize) -> (r: Vec<ProcessedMessage>)
    ensures
        r@ == ranked_prefix(msgs@, limit as int),
        r@.len() == (if limit as int <= msgs@.len() {
            limit as int
        } else {
            msgs@.len() as int
        }),
{
    let n: usize = msgs.len();
    let mut totals: Vec<u128> = Vec::new();
    let mut i: usize = 0;
    while i < n
        invariant
            i <= n,
            n == msgs@.len(),
            totals@.len() == i as int,
            forall|j: int| 0 <= j < i ==> totals@[j] == msgs@[j].total_reactions,
        decreases n - i,
    {
        totals.push(msgs[i].total_reactions);
        i = i + 1;
    }
    proof {
        assert(totals@ =~= totals_of(msgs@));
        lemma_rank_order_props(totals@, n as int);
    }
    let idx: Vec<usize> = compute_rank_order(&totals);
    let cut: usize = if limit <= n {
        limit
    } else {
        n
    };
    let mut r: Vec<ProcessedMessage> = Vec::new();
    let mut j: usize = 0;
    while j < cut
        invariant
            j <= cut,
            cut <= n,
            n == msgs@.len(),
            idx@ == rank_order(totals_of(msgs@), n as int),
            idx@.len() == n as int,
            in_range(idx@, n as int),
            r@.len() == j as int,
            forall|q: int| 0 <= q < j ==> r@[q] == msgs@[idx@[q] as int],
        decreases cut - j,
    {
        let e: usize = idx[j];
        r.push(msgs[e]);
        j = j + 1;
    }
    proof {
        assert(r@ =~= ranked_prefix(msgs@, limit as int));
    }
    r
}

/// Ranking stability: two entries of the ranked output with equal
/// reaction totals stand in the order of the positions they came from,
/// which is the processor's input order.
pub proof fn lemma_ranking_stable(ms: Seq<ProcessedMessage>, limit: int, i: int, j: int)
    requires
        ms.len() <= usize::MAX,
        0 <= limit,
        0 <= i < j < ranked_prefix(ms, limit).len(),
        ranked_prefix(ms, limit)[i].total_reactions == ranked_prefix(
            ms,
            limit,
        )[j].total_reactions,
    ensures
        ({
            let o = rank_order(totals_of(ms), ms.len() as int);
            &&& o[i] < o[j]
            &&& ranked_prefix(ms, limit)[i] == ms[o[i] as int]
            &&& ranked_prefix(ms, limit)[j] == ms[o[j] as int]
        }),
{
    let totals = totals_of(ms);
    let o = rank_order(totals, ms.len() as int);
    lemma_rank_order_props(totals, ms.len() as int);
    assert(ranks_before(totals, o[i], o[j]));
    assert(totals[o[i] as int] == ms[o[i] as int].total_reactions);
    assert(totals[o[j] as int] == ms[o[j] as int].total_reactions);
}

/// The ranked output is ordered by total reactions, descending.
pub proof fn lemma_ranking_sorted(ms: Seq<ProcessedMessage>, limit: int, i: int, j: int)
    requires
        ms.len() <= usize::MAX,
        0 <= limit,
        0 <= i < j < ranked_prefix(ms, limit).len(),
    ensures
        ranked_prefix(ms, limit)[i].total_reactions >= ranked_prefix(
            ms,
            limit,
        )[j].total_reactions,
{
    let totals = totals_of(ms);
    let o = rank_order(totals, ms.len() as int);
    lemma_rank_order_props(totals, ms.len() as int);
    assert(ranks_before(totals, o[i], o[j]));
    assert(totals[o[i] as int] == ms[o[i] as int].total_reactions);
    assert(totals[o[j] as int] == ms[o[j] as int].total_reactions);
}

} // verus!
