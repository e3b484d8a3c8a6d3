//! Occurrence counts over topic assignments, and the facts about them that
//! the count tables rely on.
use vstd::prelude::*;

verus! {

/// Number of the first `n` positions of `ts` assigned topic `z`.
pub open spec fn topic_count_upto(ts: Seq<u32>, n: int, z: int) -> nat
    decreases n,
{
    if n <= 0 {
        0
    } else {
        topic_count_upto(ts, n - 1, z) + if ts[n - 1] == z {
            1nat
        } else {
            0nat
        }
    }
}

/// Number of positions of `ts` assigned topic `z`.
pub open spec fn topic_count(ts: Seq<u32>, z: int) -> nat {
    topic_count_upto(ts, ts.len() as int, z)
}

/// Number of the first `n` positions holding term `w` assigned topic `z`.
pub open spec fn pair_count_upto(ws: Seq<u32>, ts: Seq<u32>, n: int, w: int, z: int) -> nat
    decreases n,
{
    if n <= 0 {
        0
    } else {
        pair_count_upto(ws, ts, n - 1, w, z) + if ws[n - 1] == w && ts[n - 1] == z {
            1nat
        } else {
            0nat
        }
    }
}

/// Number of positions holding term `w` assigned topic `z`.
pub open spec fn pair_count(ws: Seq<u32>, ts: Seq<u32>, w: int, z: int) -> nat {
    pair_count_upto(ws, ts, ts.len() as int, w, z)
}

/// Occurrences of topic `z` in the first `n` documents.
pub open spec fn corpus_topic_upto(tss: Seq<Seq<u32>>, n: int, z: int) -> nat
    decreases n,
{
    if n <= 0 {
        0
    } else {
        corpus_topic_upto(tss, n - 1, z) + topic_count(tss[n - 1], z)
    }
}

/// Occurrences of term `w` on topic `z` in the first `n` documents.
pub open spec fn corpus_pair_upto(wss: Seq<Seq<u32>>, tss: Seq<Seq<u32>>, n: int, w: int, z: int) -> nat
    decreases n,
{
    if n <= 0 {
        0
    } else {
        corpus_pair_upto(wss, tss, n - 1, w, z) + pair_count(wss[n - 1], tss[n - 1], w, z)
    }
}

/// Number of occurrences in the first `n` documents.
pub open spec fn length_upto(tss: Seq<Seq<u32>>, n: int) -> nat
    decreases n,
{
    if n <= 0 {
        0
    } else {
        length_upto(tss, n - 1) + tss[n - 1].len()
    }
}

/// `sum_{z < k} topic_count(ts, z)`.
pub open spec fn topic_sum(ts: Seq<u32>, k: int) -> nat
    decreases k,
{
    if k <= 0 {
        0
    } else {
        topic_sum(ts, k - 1) + topic_count(ts, k - 1)
    }
}

/// `sum_{z < k} corpus_topic_upto(tss, n, z)`.
pub open spec fn corpus_topic_sum(tss: Seq<Seq<u32>>, n: int, k: int) -> nat
    decreases k,
{
    if k <= 0 {
        0
    } else {
        corpus_topic_sum(tss, n, k - 1) + corpus_topic_upto(tss, n, k - 1)
    }
}

pub open spec fn all_below(ts: Seq<u32>, k: int) -> bool {
    forall|i: int| 0 <= i < ts.len() ==> ts[i] < k
}

pub proof fn lemma_topic_count_update(ts: Seq<u32>, n: int, i: int, b: u32, z: int)
    requires
        0 <= i < ts.len(),
        n <= ts.len(),
    ensures
        topic_count_upto(ts.update(i, b), n, z) == topic_count_upto(ts, n, z) + if i < n {
            (if b == z { 1int } else { 0int }) - (if ts[i] == z { 1int } else { 0int })
        } else {
            0int
        },
    decreases n,
{
    if n > 0 {
        lemma_topic_count_update(ts, n - 1, i, b, z);
    }
}

pub proof fn lemma_pair_count_update(ws: Seq<u32>, ts: Seq<u32>, n: int, i: int, b: u32, w: int, z: int)
    requires
        0 <= i < ts.len(),
        n <= ts.len(),
        ws.len() == ts.len(),
    ensures
        pair_count_upto(ws, ts.update(i, b), n, w, z) == pair_count_upto(ws, ts, n, w, z) + if i
            < n && ws[i] == w {
            (if b == z { 1int } else { 0int }) - (if ts[i] == z { 1int } else { 0int })
        } else {
            0int
        },
    decreases n,
{
    if n > 0 {
        lemma_pair_count_update(ws, ts, n - 1, i, b, w, z);
    }
}

pub proof fn lemma_corpus_topic_update(tss: Seq<Seq<u32>>, n: int, d: int, nt: Seq<u32>, z: int)
    requires
        0 <= d < tss.len(),
        n <= tss.len(),
    ensures
        corpus_topic_upto(tss.update(d, nt), n, z) == corpus_topic_upto(tss, n, z) + if d < n {
            topic_count(nt, z) - topic_count(tss[d], z)
        } else {
            0int
        },
    decreases n,
{
    if n > 0 {
        lemma_corpus_topic_update(tss, n - 1, d, nt, z);
    }
}

pub proof fn lemma_corpus_pair_update(
    wss: Seq<Seq<u32>>,
    tss: Seq<Seq<u32>>,
    n: int,
    d: int,
    nt: Seq<u32>,
    w: int,
    z: int,
)
    requires
        0 <= d < tss.len(),
        n <= tss.len(),
    ensures
        corpus_pair_upto(wss, tss.update(d, nt), n, w, z) == corpus_pair_upto(wss, tss, n, w, z)
            + if d < n {
            pair_count(wss[d], nt, w, z) - pair_count(wss[d], tss[d], w, z)
        } else {
            0int
        },
    decreases n,
{
    if n > 0 {
        lemma_corpus_pair_update(wss, tss, n - 1, d, nt, w, z);
    }
}

pub proof fn lemma_topic_count_bound(ts: Seq<u32>, n: int, z: int)
    requires
        0 <= n <= ts.len(),
    ensures
        topic_count_upto(ts, n, z) <= n,
    decreases n,
{
    if n > 0 {
        lemma_topic_count_bound(ts, n - 1, z);
    }
}

pub proof fn lemma_pair_le_topic(ws: Seq<u32>, ts: Seq<u32>, n: int, w: int, z: int)
    ensures
        pair_count_upto(ws, ts, n, w, z) <= topic_count_upto(ts, n, z),
    decreases n,
{
    if n > 0 {
        lemma_pair_le_topic(ws, ts, n - 1, w, z);
    }
}

pub proof fn lemma_corpus_pair_le_topic(wss: Seq<Seq<u32>>, tss: Seq<Seq<u32>>, n: int, w: int, z: int)
    ensures
        corpus_pair_upto(wss, tss, n, w, z) <= corpus_topic_upto(tss, n, z),
    decreases n,
{
    if n > 0 {
        lemma_corpus_pair_le_topic(wss, tss, n - 1, w, z);
        lemma_pair_le_topic(wss[n - 1], tss[n - 1], tss[n - 1].len() as int, w, z);
    }
}

pub proof fn lemma_corpus_topic_bound(tss: Seq<Seq<u32>>, n: int, z: int)
    requires
        0 <= n <= tss.len(),
    ensures
        corpus_topic_upto(tss, n, z) <= length_upto(tss, n),
    decreases n,
{
    if n > 0 {
        lemma_corpus_topic_bound(tss, n - 1, z);
        lemma_topic_count_bound(tss[n - 1], tss[n - 1].len() as int, z);
    }
}

pub proof fn lemma_length_upto_ge(tss: Seq<Seq<u32>>, n: int, d: int)
    requires
        0 <= d < n <= tss.len(),
    ensures
        tss[d].len() <= length_upto(tss, n),
    decreases n,
{
    if n - 1 > d {
        lemma_length_upto_ge(tss, n - 1, d);
    }
}

/// Adding one more position to the prefix adds one to exactly one topic
/// count below `k`, when that position's topic is below `k`.
proof fn lemma_topic_sum_step(ts: Seq<u32>, n: int, k: int)
    requires
        0 <= n < ts.len(),
    ensures
        ({
            let s = |m: int| topic_sum_upto(ts, m, k);
            s(n + 1) == s(n) + if ts[n] < k && k > 0 { 1int } else { 0int }
        }),
    decreases k,
{
    if k > 0 {
        lemma_topic_sum_step(ts, n, k - 1);
    }
}

/// `sum_{z < k} topic_count_upto(ts, n, z)`.
pub open spec fn topic_sum_upto(ts: Seq<u32>, n: int, k: int) -> nat
    decreases k,
{
    if k <= 0 {
        0
    } else {
        topic_sum_upto(ts, n, k - 1) + topic_count_upto(ts, n, k - 1)
    }
}

proof fn lemma_topic_sum_upto_len(ts: Seq<u32>, n: int, k: int)
    requires
        0 <= n <= ts.len(),
        all_below(ts, k),
    ensures
        topic_sum_upto(ts, n, k) == n,
    decreases n,
{
    if n > 0 {
        lemma_topic_sum_upto_len(ts, n - 1, k);
        lemma_topic_sum_step(ts, n - 1, k);
    } else {
        lemma_topic_sum_zero(ts, k);
    }
}

proof fn lemma_topic_sum_zero(ts: Seq<u32>, k: int)
    ensures
        topic_sum_upto(ts, 0, k) == 0,
    decreases k,
{
    if k > 0 {
        lemma_topic_sum_zero(ts, k - 1);
    }
}

proof fn lemma_topic_sum_is_upto(ts: Seq<u32>, k: int)
    ensures
        topic_sum(ts, k) == topic_sum_upto(ts, ts.len() as int, k),
    decreases k,
{
    if k > 0 {
        lemma_topic_sum_is_upto(ts, k - 1);
    }
}

/// When every position holds a topic below `k`, the counts of the topics
/// below `k` add up to the number of positions.
pub proof fn lemma_topic_sum_len(ts: Seq<u32>, k: int)
    requires
        all_below(ts, k),
    ensures
        topic_sum(ts, k) == ts.len(),
{
    lemma_topic_sum_is_upto(ts, k);
    lemma_topic_sum_upto_len(ts, ts.len() as int, k);
}

proof fn lemma_corpus_topic_sum_step(tss: Seq<Seq<u32>>, n: int, k: int)
    requires
        0 <= n < tss.len(),
    ensures
        corpus_topic_sum(tss, n + 1, k) == corpus_topic_sum(tss, n, k) + topic_sum(tss[n], k),
    decreases k,
{
    if k > 0 {
        lemma_corpus_topic_sum_step(tss, n, k - 1);
    }
}

proof fn lemma_corpus_topic_sum_zero(tss: Seq<Seq<u32>>, k: int)
    ensures
        corpus_topic_sum(tss, 0, k) == 0,
    decreases k,
{
    if k > 0 {
        lemma_corpus_topic_sum_zero(tss, k - 1);
    }
}

/// When every document holds topics below `k` only, the corpus-wide topic
/// counts add up to the number of occurrences.
pub proof fn lemma_corpus_topic_sum_len(tss: Seq<Seq<u32>>, n: int, k: int)
    requires
        0 <= n <= tss.len(),
        forall|d: int| 0 <= d < tss.len() ==> all_below(#[trigger] tss[d], k),
    ensures
        corpus_topic_sum(tss, n, k) == length_upto(tss, n),
    decreases n,
{
    if n > 0 {
        lemma_corpus_topic_sum_len(tss, n - 1, k);
        lemma_corpus_topic_sum_step(tss, n - 1, k);
        lemma_topic_sum_len(tss[n - 1], k);
    } else {
        lemma_corpus_topic_sum_zero(tss, k);
    }
}

proof fn lemma_topic_count_agree(a: Seq<u32>, b: Seq<u32>, n: int, z: int)
    requires
        n <= a.len(),
        n <= b.len(),
        forall|j: int| 0 <= j < n ==> a[j] == b[j],
    ensures
        topic_count_upto(a, n, z) == topic_count_upto(b, n, z),
    decreases n,
{
    if n > 0 {
        lemma_topic_count_agree(a, b, n - 1, z);
    }
}

proof fn lemma_pair_count_agree(wa: Seq<u32>, a: Seq<u32>, wb: Seq<u32>, b: Seq<u32>, n: int, w: int, z: int)
    requires
        n <= a.len(),
        n <= b.len(),
        n <= wa.len(),
        n <= wb.len(),
        forall|j: int| 0 <= j < n ==> a[j] == b[j] && wa[j] == wb[j],
    ensures
        pair_count_upto(wa, a, n, w, z) == pair_count_upto(wb, b, n, w, z),
    decreases n,
{
    if n > 0 {
        lemma_pair_count_agree(wa, a, wb, b, n - 1, w, z);
    }
}

proof fn lemma_corpus_agree(wa: Seq<Seq<u32>>, a: Seq<Seq<u32>>, wb: Seq<Seq<u32>>, b: Seq<Seq<u32>>, n: int, w: int, z: int)
    requires
        n <= a.len(),
        n <= b.len(),
        n <= wa.len(),
        n <= wb.len(),
        forall|j: int| 0 <= j < n ==> a[j] == b[j] && wa[j] == wb[j],
    ensures
        corpus_topic_upto(a, n, z) == corpus_topic_upto(b, n, z),
        corpus_pair_upto(wa, a, n, w, z) == corpus_pair_upto(wb, b, n, w, z),
        length_upto(a, n) == length_upto(b, n),
    decreases n,
{
    if n > 0 {
        lemma_corpus_agree(wa, a, wb, b, n - 1, w, z);
    }
}

/// Appending a position adds it to the counts.
pub proof fn lemma_count_push(ws: Seq<u32>, ts: Seq<u32>, y: u32, x: u32, w: int, z: int)
    requires
        ws.len() == ts.len(),
    ensures
        topic_count(ts.push(x), z) == topic_count(ts, z) + if x == z { 1int } else { 0int },
        pair_count(ws.push(y), ts.push(x), w, z) == pair_count(ws, ts, w, z) + if y == w && x
            == z {
            1int
        } else {
            0int
        },
{
    lemma_topic_count_agree(ts.push(x), ts, ts.len() as int, z);
    lemma_pair_count_agree(ws.push(y), ts.push(x), ws, ts, ts.len() as int, w, z);
}

/// Appending a document adds its counts to the corpus counts.
pub proof fn lemma_corpus_push(wss: Seq<Seq<u32>>, tss: Seq<Seq<u32>>, ws: Seq<u32>, ts: Seq<u32>, w: int, z: int)
    requires
        wss.len() == tss.len(),
    ensures
        corpus_topic_upto(tss.push(ts), tss.len() + 1int, z) == corpus_topic_upto(tss, tss.len() as int, z)
            + topic_count(ts, z),
        corpus_pair_upto(wss.push(ws), tss.push(ts), tss.len() + 1int, w, z) == corpus_pair_upto(
            wss,
            tss,
            tss.len() as int,
            w,
            z,
        ) + pair_count(ws, ts, w, z),
        length_upto(tss.push(ts), tss.len() + 1int) == length_upto(tss, tss.len() as int) + ts.len(),
{
    lemma_corpus_agree(wss.push(ws), tss.push(ts), wss, tss, tss.len() as int, w, z);
}

/// The number of occurrences depends on the documents' lengths alone.
pub proof fn lemma_length_same(a: Seq<Seq<u32>>, b: Seq<Seq<u32>>, n: int)
    requires
        n <= a.len(),
        n <= b.len(),
        forall|j: int| 0 <= j < n ==> #[trigger] a[j].len() == b[j].len(),
    ensures
        length_upto(a, n) == length_upto(b, n),
    decreases n,
{
    if n > 0 {
        lemma_length_same(a, b, n - 1);
    }
}

pub proof fn lemma_length_upto_monotone(tss: Seq<Seq<u32>>, m: int, n: int)
    requires
        0 <= m <= n <= tss.len(),
    ensures
        length_upto(tss, m) <= length_upto(tss, n),
    decreases n - m,
{
    if m < n {
        lemma_length_upto_monotone(tss, m, n - 1);
    }
}

/// `sum_{w < v} pair_count_upto(ws, ts, n, w, z)`.
pub open spec fn pair_sum_upto(ws: Seq<u32>, ts: Seq<u32>, n: int, v: int, z: int) -> nat
    decreases v,
{
    if v <= 0 {
        0
    } else {
        pair_sum_upto(ws, ts, n, v - 1, z) + pair_count_upto(ws, ts, n, v - 1, z)
    }
}

/// `sum_{w < v} corpus_pair_upto(wss, tss, n, w, z)`.
pub open spec fn corpus_pair_sum(wss: Seq<Seq<u32>>, tss: Seq<Seq<u32>>, n: int, v: int, z: int) -> nat
    decreases v,
{
    if v <= 0 {
        0
    } else {
        corpus_pair_sum(wss, tss, n, v - 1, z) + corpus_pair_upto(wss, tss, n, v - 1, z)
    }
}

proof fn lemma_pair_sum_step(ws: Seq<u32>, ts: Seq<u32>, n: int, v: int, z: int)
    requires
        0 <= n < ts.len(),
        n < ws.len(),
    ensures
        pair_sum_upto(ws, ts, n + 1, v, z) == pair_sum_upto(ws, ts, n, v, z) + if ts[n] == z && ws[n]
            < v {
            1int
        } else {
            0int
        },
    decreases v,
{
    if v > 0 {
        lemma_pair_sum_step(ws, ts, n, v - 1, z);
    }
}

proof fn lemma_pair_sum_zero(ws: Seq<u32>, ts: Seq<u32>, v: int, z: int)
    ensures
        pair_sum_upto(ws, ts, 0, v, z) == 0,
    decreases v,
{
    if v > 0 {
        lemma_pair_sum_zero(ws, ts, v - 1, z);
    }
}

proof fn lemma_pair_sum_is_topic_count(ws: Seq<u32>, ts: Seq<u32>, n: int, v: int, z: int)
    requires
        0 <= n <= ts.len(),
        ws.len() == ts.len(),
        forall|i: int| 0 <= i < ws.len() ==> #[trigger] ws[i] < v,
    ensures
        pair_sum_upto(ws, ts, n, v, z) == topic_count_upto(ts, n, z),
    decreases n,
{
    if n > 0 {
        lemma_pair_sum_is_topic_count(ws, ts, n - 1, v, z);
        lemma_pair_sum_step(ws, ts, n - 1, v, z);
    } else {
        lemma_pair_sum_zero(ws, ts, v, z);
    }
}

proof fn lemma_corpus_pair_sum_step(wss: Seq<Seq<u32>>, tss: Seq<Seq<u32>>, n: int, v: int, z: int)
    requires
        0 <= n < tss.len(),
    ensures
        corpus_pair_sum(wss, tss, n + 1, v, z) == corpus_pair_sum(wss, tss, n, v, z) + pair_sum_upto(
            wss[n],
            tss[n],
            tss[n].len() as int,
            v,
            z,
        ),
    decreases v,
{
    if v > 0 {
        lemma_corpus_pair_sum_step(wss, tss, n, v - 1, z);
    }
}

proof fn lemma_corpus_pair_sum_zero(wss: Seq<Seq<u32>>, tss: Seq<Seq<u32>>, v: int, z: int)
    ensures
        corpus_pair_sum(wss, tss, 0, v, z) == 0,
    decreases v,
{
    if v > 0 {
        lemma_corpus_pair_sum_zero(wss, tss, v - 1, z);
    }
}

/// When every term id lies below `v`, the counts of topic `z` summed over
/// the terms below `v` give the number of occurrences on topic `z`.
pub proof fn lemma_corpus_pair_sum(wss: Seq<Seq<u32>>, tss: Seq<Seq<u32>>, n: int, v: int, z: int)
    requires
        0 <= n <= tss.len(),
        wss.len() == tss.len(),
        forall|d: int| 0 <= d < tss.len() ==> #[trigger] wss[d].len() == tss[d].len(),
        forall|d: int, i: int| 0 <= d < wss.len() && 0 <= i < wss[d].len() ==> #[trigger] wss[d][i] < v,
    ensures
        corpus_pair_sum(wss, tss, n, v, z) == corpus_topic_upto(tss, n, z),
    decreases n,
{
    if n > 0 {
        lemma_corpus_pair_sum(wss, tss, n - 1, v, z);
        lemma_corpus_pair_sum_step(wss, tss, n - 1, v, z);
        let ws = wss[n - 1];
        assert forall|i: int| 0 <= i < ws.len() implies #[trigger] ws[i] < v by {
            assert(wss[n - 1][i] < v);
        }
        lemma_pair_sum_is_topic_count(ws, tss[n - 1], tss[n - 1].len() as int, v, z);
    } else {
        lemma_corpus_pair_sum_zero(wss, tss, v, z);
    }
}

} // verus!
