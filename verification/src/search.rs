//! Hybrid retrieval: the search plan, reciprocal-rank fusion of the semantic and
//! keyword rankings, result filtering, and the keyword query expression.
use vstd::prelude::*;
use crate::models::{ChunkRecord, SearchFilters, SearchRequest};
use crate::models::opt_view;
use crate::text::{
    chars_of, eq_ignore_ascii_case, eq_ignore_ascii_case_str, is_prefix, join_with,
    starts_with_str, string_from_chars, trim, trim_str,
};

verus! {

/// Fusion constant of reciprocal-rank fusion: a hit at rank `r` (0-based)
/// contributes `1 / (RRF_K + r + 1)`.
pub const RRF_K: u64 = 60;

/// A passage found by either ranking, with its 0-based rank in each ranking
/// that found it.
#[derive(Debug, Clone, Copy, PartialEq, Eq, Structural)]
pub struct FusedHit {
    pub id: u64,
    pub vector_rank: Option<usize>,
    pub keyword_rank: Option<usize>,
}

/// Numerator of the fused score `sum of 1 / (61 + rank)` over the rankings that found the hit.
pub open spec fn score_num(h: FusedHit) -> int {
    match (h.vector_rank, h.keyword_rank) {
        (Some(a), Some(b)) => 122 + a + b,
        (Some(_), None) => 1,
        (None, Some(_)) => 1,
        (None, None) => 0,
    }
}

/// Denominator of the fused score.
pub open spec fn score_den(h: FusedHit) -> int {
    match (h.vector_rank, h.keyword_rank) {
        (Some(a), Some(b)) => (61 + a) * (61 + b),
        (Some(a), None) => 61 + a,
        (None, Some(b)) => 61 + b,
        (None, None) => 1,
    }
}

/// `x` scores at least as high as `y`, compared exactly.
pub open spec fn score_at_least(x: FusedHit, y: FusedHit) -> bool {
    score_num(x) * score_den(y) >= score_num(y) * score_den(x)
}

/// No identifier occurs twice in `list`.
pub open spec fn distinct_ids(list: Seq<u64>) -> bool {
    forall|i: int, j: int| 0 <= i < j < list.len() ==> list[i] != list[j]
}

/// No two hits carry the same identifier.
pub open spec fn distinct_hits(hits: Seq<FusedHit>) -> bool {
    forall|i: int, j: int| 0 <= i < j < hits.len() ==> hits[i].id != hits[j].id
}

/// `id` occurs in `list`.
pub open spec fn listed(list: Seq<u64>, id: u64) -> bool {
    exists|i: int| 0 <= i < list.len() && list[i] == id
}

/// Some hit carries `id`.
pub open spec fn hit_listed(hits: Seq<FusedHit>, id: u64) -> bool {
    exists|k: int| 0 <= k < hits.len() && hits[k].id == id
}

/// `rank` records where `id` stands in `list`: its position, or `None` when absent.
pub open spec fn rank_matches(list: Seq<u64>, rank: Option<usize>, id: u64) -> bool {
    match rank {
        Some(r) => r < list.len() && list[r as int] == id,
        None => !listed(list, id),
    }
}

/// Every hit records, for its identifier, the positions in both rankings.
pub open spec fn ranks_recorded(vector: Seq<u64>, keyword: Seq<u64>, hits: Seq<FusedHit>) -> bool {
    forall|k: int|
        0 <= k < hits.len() ==> rank_matches(vector, #[trigger] hits[k].vector_rank, hits[k].id)
            && rank_matches(keyword, hits[k].keyword_rank, hits[k].id)
}

/// The identifiers of the hits are exactly those of the two rankings.
pub open spec fn covers(vector: Seq<u64>, keyword: Seq<u64>, hits: Seq<FusedHit>) -> bool {
    forall|id: u64|
        #![trigger listed(vector, id)]
        #![trigger listed(keyword, id)]
        #![trigger hit_listed(hits, id)]
        (listed(vector, id) || listed(keyword, id)) == hit_listed(hits, id)
}

/// Hits sorted by fused score, highest first.
pub open spec fn sorted_by_score(hits: Seq<FusedHit>) -> bool {
    forall|i: int, j: int| 0 <= i < j < hits.len() ==> score_at_least(hits[i], hits[j])
}

/// The fusion of two rankings: every identifier of either ranking exactly once,
/// with its rank in each, ordered by fused score.
pub open spec fn is_fusion(vector: Seq<u64>, keyword: Seq<u64>, hits: Seq<FusedHit>) -> bool {
    &&& distinct_hits(hits)
    &&& ranks_recorded(vector, keyword, hits)
    &&& covers(vector, keyword, hits)
    &&& sorted_by_score(hits)
}

proof fn lemma_score_den_positive(h: FusedHit)
    ensures
        score_den(h) > 0,
        score_num(h) >= 0,
{
    match (h.vector_rank, h.keyword_rank) {
        (Some(a), Some(b)) => {
            assert((61 + a) * (61 + b) > 0) by (nonlinear_arith)
                requires
                    a >= 0,
                    b >= 0,
            ;
        },
        _ => {},
    }
}

/// Law: comparing fused scores is transitive.
pub proof fn lemma_score_at_least_transitive(x: FusedHit, y: FusedHit, z: FusedHit)
    requires
        score_at_least(x, y),
        score_at_least(y, z),
    ensures
        score_at_least(x, z),
{
    lemma_score_den_positive(x);
    lemma_score_den_positive(y);
    lemma_score_den_positive(z);
    let (a, b, c, d, e, f) = (
        score_num(x),
        score_den(x),
        score_num(y),
        score_den(y),
        score_num(z),
        score_den(z),
    );
    assert(a * f >= e * b) by (nonlinear_arith)
        requires
            b > 0,
            d > 0,
            f > 0,
            a * d >= c * b,
            c * f >= e * d,
    {
        assert(a * d * f >= c * b * f);
        assert(c * f * b >= e * d * b);
        assert(a * d * f >= e * d * b);
        assert(d * (a * f - e * b) >= 0);
    }
}

/// Exact comparison of fused scores.
fn score_at_least_exec(x: &FusedHit, y: &FusedHit) -> (r: bool)
    requires
        x.vector_rank matches Some(a) ==> a <= u32::MAX,
        x.keyword_rank matches Some(b) ==> b <= u32::MAX,
        y.vector_rank matches Some(a) ==> a <= u32::MAX,
        y.keyword_rank matches Some(b) ==> b <= u32::MAX,
    ensures
        r == score_at_least(*x, *y),
{
    let (xn, xd) = fraction(x);
    let (yn, yd) = fraction(y);
    assert(xn * yd <= 0x4_0000_0000 * (0x2_0000_0000 * 0x2_0000_0000)) by (nonlinear_arith)
        requires
            xn <= 0x4_0000_0000,
            yd <= 0x2_0000_0000 * 0x2_0000_0000,
    ;
    assert(yn * xd <= 0x4_0000_0000 * (0x2_0000_0000 * 0x2_0000_0000)) by (nonlinear_arith)
        requires
            yn <= 0x4_0000_0000,
            xd <= 0x2_0000_0000 * 0x2_0000_0000,
    ;
    xn * yd >= yn * xd
}

fn fraction(h: &FusedHit) -> (r: (u128, u128))
    requires
        h.vector_rank matches Some(a) ==> a <= u32::MAX,
        h.keyword_rank matches Some(b) ==> b <= u32::MAX,
    ensures
        r.0 == score_num(*h),
        r.1 == score_den(*h),
        r.0 <= 0x4_0000_0000,
        r.1 <= 0x2_0000_0000 * 0x2_0000_0000,
{
    match (h.vector_rank, h.keyword_rank) {
        (Some(a), Some(b)) => {
            let a = a as u128;
            let b = b as u128;
            assert((61 + a) * (61 + b) <= 0x2_0000_0000 * 0x2_0000_0000) by (nonlinear_arith)
                requires
                    a <= u32::MAX,
                    b <= u32::MAX,
            ;
            (122 + a + b, (61 + a) * (61 + b))
        },
        (Some(a), None) => (1, 61 + a as u128),
        (None, Some(b)) => (1, 61 + b as u128),
        (None, None) => (0, 1),
    }
}

/// One hit per identifier of either ranking, in first-seen order.
fn collect_hits(vector: &Vec<u64>, keyword: &Vec<u64>) -> (hits: Vec<FusedHit>)
    requires
        distinct_ids(vector@),
        distinct_ids(keyword@),
    ensures
        distinct_hits(hits@),
        ranks_recorded(vector@, keyword@, hits@),
        covers(vector@, keyword@, hits@),
{
    let mut hits: Vec<FusedHit> = Vec::new();
    let mut a: usize = 0;
    while a < vector.len()
        invariant
            a <= vector@.len(),
            hits@.len() == a,
            forall|k: int|
                0 <= k < a ==> #[trigger] hits@[k] == (FusedHit {
                    id: vector@[k],
                    vector_rank: Some(k as usize),
                    keyword_rank: None,
                }),
        decreases vector@.len() - a,
    {
        hits.push(FusedHit { id: vector[a], vector_rank: Some(a), keyword_rank: None });
        a += 1;
    }
    assert(covers(vector@, keyword@.take(0), hits@)) by {
        assert forall|id: u64| (listed(vector@, id) || listed(keyword@.take(0), id)) == hit_listed(hits@, id) by {
            if listed(vector@, id) {
                let i = choose|i: int| 0 <= i < vector@.len() && vector@[i] == id;
                assert(hits@[i].id == id);
            }
            if hit_listed(hits@, id) {
                let k = choose|k: int| 0 <= k < hits@.len() && hits@[k].id == id;
                assert(vector@[k] == id);
            }
        }
    }
    let mut b: usize = 0;
    while b < keyword.len()
        invariant
            b <= keyword@.len(),
            distinct_ids(vector@),
            distinct_ids(keyword@),
            distinct_hits(hits@),
            ranks_recorded(vector@, keyword@.take(b as int), hits@),
            covers(vector@, keyword@.take(b as int), hits@),
        decreases keyword@.len() - b,
    {
        let id = keyword[b];
        let ghost before = hits@;
        let ghost taken = keyword@.take(b as int);
        let ghost next = keyword@.take(b + 1);
        assert(next =~= taken.push(id));
        assert(!listed(taken, id)) by {
            if listed(taken, id) {
                let r = choose|r: int| 0 <= r < taken.len() && taken[r] == id;
                assert(keyword@[r] == keyword@[b as int]);
            }
        }
        assert forall|x: u64| listed(taken, x) ==> listed(next, x) by {
            if listed(taken, x) {
                let r = choose|r: int| 0 <= r < taken.len() && taken[r] == x;
                assert(next[r] == x);
            }
        }
        assert forall|x: u64| listed(next, x) && x != id ==> listed(taken, x) by {
            if listed(next, x) && x != id {
                let r = choose|r: int| 0 <= r < next.len() && next[r] == x;
                assert(taken[r] == x);
            }
        }
        assert(listed(next, id)) by {
            assert(next[b as int] == id);
        }
        let mut p: usize = 0;
        while p < hits.len() && hits[p].id != id
            invariant
                p <= hits@.len(),
                hits@ == before,
                forall|k: int| 0 <= k < p ==> hits@[k].id != id,
            decreases hits@.len() - p,
        {
            p += 1;
        }
        if p < hits.len() {
            let old_hit = hits[p];
            hits.set(p, FusedHit { id, vector_rank: old_hit.vector_rank, keyword_rank: Some(b) });
            proof {
                assert(hits@.len() == before.len());
                assert forall|k: int| 0 <= k < hits@.len() implies hits@[k].id == before[k].id by {}
                assert forall|k: int| 0 <= k < hits@.len() implies rank_matches(
                    vector@,
                    #[trigger] hits@[k].vector_rank,
                    hits@[k].id,
                ) && rank_matches(next, hits@[k].keyword_rank, hits@[k].id) by {
                    assert(rank_matches(vector@, before[k].vector_rank, before[k].id));
                    assert(rank_matches(taken, before[k].keyword_rank, before[k].id));
                    if k == p {
                        assert(next[b as int] == id);
                    } else {
                        assert(before[k].id != id);
                        assert(hits@[k] == before[k]);
                        if before[k].keyword_rank is Some {
                            let r = before[k].keyword_rank->Some_0;
                            assert(taken[r as int] == next[r as int]);
                        }
                    }
                }
                assert forall|x: u64| #[trigger] hit_listed(hits@, x) == hit_listed(before, x) by {
                    if hit_listed(hits@, x) {
                        let k = choose|k: int| 0 <= k < hits@.len() && hits@[k].id == x;
                        assert(before[k].id == x);
                    }
                    if hit_listed(before, x) {
                        let k = choose|k: int| 0 <= k < before.len() && before[k].id == x;
                        assert(hits@[k].id == x);
                    }
                }
                assert(hit_listed(before, id)) by {
                    assert(before[p as int].id == id);
                }
                assert forall|x: u64| (listed(vector@, x) || listed(next, x)) == hit_listed(hits@, x) by {
                    assert((listed(vector@, x) || listed(taken, x)) == hit_listed(before, x));
                }
            }
        } else {
            hits.push(FusedHit { id, vector_rank: None, keyword_rank: Some(b) });
            proof {
                assert(!hit_listed(before, id));
                assert((listed(vector@, id) || listed(taken, id)) == hit_listed(before, id));
                assert(!listed(vector@, id));
                assert forall|k: int| 0 <= k < hits@.len() implies rank_matches(
                    vector@,
                    #[trigger] hits@[k].vector_rank,
                    hits@[k].id,
                ) && rank_matches(next, hits@[k].keyword_rank, hits@[k].id) by {
                    if k < before.len() {
                        assert(hits@[k] == before[k]);
                        assert(rank_matches(vector@, before[k].vector_rank, before[k].id));
                        assert(rank_matches(taken, before[k].keyword_rank, before[k].id));
                        assert(hit_listed(before, before[k].id));
                        assert(before[k].id != id);
                        if before[k].keyword_rank is Some {
                            let r = before[k].keyword_rank->Some_0;
                            assert(taken[r as int] == next[r as int]);
                        }
                    } else {
                        assert(next[b as int] == id);
                    }
                }
                assert forall|x: u64| #[trigger] hit_listed(hits@, x) == (hit_listed(before, x) || x == id) by {
                    if hit_listed(hits@, x) {
                        let k = choose|k: int| 0 <= k < hits@.len() && hits@[k].id == x;
                        if k < before.len() {
                            assert(before[k].id == x);
                        }
                    }
                    if hit_listed(before, x) {
                        let k = choose|k: int| 0 <= k < before.len() && before[k].id == x;
                        assert(hits@[k].id == x);
                    }
                    if x == id {
                        assert(hits@[before.len() as int].id == x);
                    }
                }
                assert forall|x: u64| (listed(vector@, x) || listed(next, x)) == hit_listed(hits@, x) by {
                    assert((listed(vector@, x) || listed(taken, x)) == hit_listed(before, x));
                }
                assert forall|i: int, j: int| 0 <= i < j < hits@.len() implies hits@[i].id != hits@[j].id by {
                    if j == before.len() {
                        assert(hits@[i] == before[i]);
                        assert(hit_listed(before, before[i].id));
                    }
                }
            }
        }
        b += 1;
    }
    assert(keyword@.take(keyword@.len() as int) =~= keyword@);
    hits
}

/// `x` is one of `hits`.
pub open spec fn has_hit(hits: Seq<FusedHit>, x: FusedHit) -> bool {
    exists|k: int| 0 <= k < hits.len() && hits[k] == x
}

/// Ranks small enough for exact comparison in 128-bit arithmetic.
pub open spec fn ranks_bounded(h: FusedHit) -> bool {
    &&& h.vector_rank matches Some(a) ==> a <= u32::MAX
    &&& h.keyword_rank matches Some(b) ==> b <= u32::MAX
}

/// Orders hits by fused score, highest first; hits with equal scores keep their
/// relative order.
fn sort_by_score(hits: Vec<FusedHit>) -> (out: Vec<FusedHit>)
    requires
        distinct_hits(hits@),
        forall|k: int| 0 <= k < hits@.len() ==> ranks_bounded(#[trigger] hits@[k]),
    ensures
        sorted_by_score(out@),
        distinct_hits(out@),
        out@.len() == hits@.len(),
        forall|x: FusedHit| #[trigger] has_hit(out@, x) == has_hit(hits@, x),
{
    let mut out: Vec<FusedHit> = Vec::new();
    let mut i: usize = 0;
    while i < hits.len()
        invariant
            i <= hits@.len(),
            out@.len() == i,
            distinct_hits(hits@),
            forall|k: int| 0 <= k < hits@.len() ==> ranks_bounded(#[trigger] hits@[k]),
            sorted_by_score(out@),
            distinct_hits(out@),
            forall|x: FusedHit| #[trigger] has_hit(out@, x) == has_hit(hits@.take(i as int), x),
        decreases hits@.len() - i,
    {
        let x = hits[i];
        let ghost before = out@;
        assert forall|y: FusedHit| #[trigger] has_hit(before, y) == has_hit(hits@.take(i as int), y) by {}
        assert(ranks_bounded(hits@[i as int]));
        assert forall|k: int| 0 <= k < before.len() implies ranks_bounded(#[trigger] before[k])
            && before[k].id != x.id by {
            assert(has_hit(before, before[k]));
            assert(has_hit(hits@.take(i as int), before[k]));
            let j = choose|j: int| 0 <= j < i && hits@.take(i as int)[j] == before[k];
            assert(hits@[j] == before[k]);
        }
        let mut p: usize = 0;
        while p < out.len() && score_at_least_exec(&out[p], &x)
            invariant
                p <= out@.len(),
                out@ == before,
                ranks_bounded(x),
                forall|k: int| 0 <= k < before.len() ==> ranks_bounded(#[trigger] before[k]),
                forall|k: int| 0 <= k < p ==> score_at_least(#[trigger] before[k], x),
            decreases out@.len() - p,
        {
            p += 1;
        }
        out.insert(p, x);
        proof {
            let after = out@;
            assert(after =~= before.insert(p as int, x));
            if p < before.len() {
                assert(score_at_least(x, before[p as int]));
            }
            assert forall|a: int, b: int| 0 <= a < b < after.len() implies score_at_least(
                after[a],
                after[b],
            ) by {
                if b < p {
                } else if b == p {
                } else if a < p {
                    assert(score_at_least(before[a], before[b - 1]));
                } else if a == p {
                    if b - 1 > p {
                        assert(score_at_least(before[p as int], before[b - 1]));
                        lemma_score_at_least_transitive(x, before[p as int], before[b - 1]);
                    }
                } else {
                    assert(score_at_least(before[a - 1], before[b - 1]));
                }
            }
            assert forall|a: int, b: int| 0 <= a < b < after.len() implies after[a].id
                != after[b].id by {
                if a == p {
                    assert(before[b - 1].id != x.id);
                } else if b == p {
                    assert(before[a].id != x.id);
                }
            }
            let taken = hits@.take(i as int);
            let next = hits@.take(i + 1);
            assert(next =~= taken.push(x));
            assert forall|y: FusedHit| #[trigger] has_hit(after, y) == has_hit(next, y) by {
                if has_hit(after, y) {
                    let k = choose|k: int| 0 <= k < after.len() && after[k] == y;
                    if k < p {
                        assert(before[k] == y);
                        assert(has_hit(before, y));
                        let j = choose|j: int| 0 <= j < taken.len() && taken[j] == y;
                        assert(next[j] == y);
                    } else if k == p {
                        assert(next[i as int] == y);
                    } else {
                        assert(before[k - 1] == y);
                        assert(has_hit(before, y));
                        let j = choose|j: int| 0 <= j < taken.len() && taken[j] == y;
                        assert(next[j] == y);
                    }
                }
                if has_hit(next, y) {
                    let j = choose|j: int| 0 <= j < next.len() && next[j] == y;
                    if j < i {
                        assert(taken[j] == y);
                        assert(has_hit(taken, y));
                        assert(has_hit(before, y));
                        let k = choose|k: int| 0 <= k < before.len() && before[k] == y;
                        if k < p {
                            assert(after[k] == y);
                        } else {
                            assert(after[k + 1] == y);
                        }
                    } else {
                        assert(after[p as int] == y);
                    }
                }
            }
        }
        i += 1;
    }
    assert(hits@.take(hits@.len() as int) =~= hits@);
    out
}

/// Whether no identifier occurs twice in a ranking.
pub fn all_distinct(ids: &Vec<u64>) -> (r: bool)
    ensures
        r == distinct_ids(ids@),
{
    let mut i: usize = 0;
    while i < ids.len()
        invariant
            i <= ids@.len(),
            forall|a: int, b: int| 0 <= a < b < ids@.len() && a < i ==> ids@[a] != ids@[b],
        decreases ids@.len() - i,
    {
        let mut j: usize = i + 1;
        while j < ids.len()
            invariant
                i < j <= ids@.len(),
                i < ids@.len(),
                forall|a: int, b: int| 0 <= a < b < ids@.len() && a < i ==> ids@[a] != ids@[b],
                forall|b: int| i < b < j ==> ids@[i as int] != ids@[b],
            decreases ids@.len() - j,
        {
            if ids[i] == ids[j] {
                return false;
            }
            j += 1;
        }
        i += 1;
    }
    true
}

/// Reciprocal-rank fusion of a semantic and a keyword ranking (see `is_fusion`).
/// Identifiers name rows of the index, so none repeats within a ranking.
pub fn fuse_rankings(vector: &Vec<u64>, keyword: &Vec<u64>) -> (hits: Vec<FusedHit>)
    requires
        distinct_ids(vector@),
        distinct_ids(keyword@),
        vector@.len() <= u32::MAX,
        keyword@.len() <= u32::MAX,
    ensures
        is_fusion(vector@, keyword@, hits@),
{
    let collected = collect_hits(vector, keyword);
    assert forall|k: int| 0 <= k < collected@.len() implies ranks_bounded(#[trigger] collected@[k]) by {
        assert(rank_matches(vector@, collected@[k].vector_rank, collected@[k].id));
        assert(rank_matches(keyword@, collected@[k].keyword_rank, collected@[k].id));
    }
    let hits = sort_by_score(collected);
    proof {
        assert forall|k: int| 0 <= k < hits@.len() implies rank_matches(
            vector@,
            #[trigger] hits@[k].vector_rank,
            hits@[k].id,
        ) && rank_matches(keyword@, hits@[k].keyword_rank, hits@[k].id) by {
            assert(has_hit(hits@, hits@[k]));
            let j = choose|j: int| 0 <= j < collected@.len() && collected@[j] == hits@[k];
            assert(rank_matches(vector@, collected@[j].vector_rank, collected@[j].id));
        }
        assert forall|id: u64| #[trigger] hit_listed(hits@, id) == hit_listed(collected@, id) by {
            if hit_listed(hits@, id) {
                let k = choose|k: int| 0 <= k < hits@.len() && hits@[k].id == id;
                assert(has_hit(hits@, hits@[k]));
                let j = choose|j: int| 0 <= j < collected@.len() && collected@[j] == hits@[k];
            }
            if hit_listed(collected@, id) {
                let j = choose|j: int| 0 <= j < collected@.len() && collected@[j].id == id;
                assert(has_hit(collected@, collected@[j]));
                assert(has_hit(hits@, collected@[j]));
                let k = choose|k: int| 0 <= k < hits@.len() && hits@[k] == collected@[j];
            }
        }
        assert forall|id: u64| (listed(vector@, id) || listed(keyword@, id)) == hit_listed(hits@, id) by {
            assert((listed(vector@, id) || listed(keyword@, id)) == hit_listed(collected@, id));
        }
    }
    hits
}

/// Most results a search returns.
pub const MAX_SEARCH_RESULTS: usize = 50;

/// What a search will do: the trimmed query, how many results to return, and how
/// many candidates to draw from each ranking.
#[derive(Debug, Clone)]
pub struct SearchPlan {
    pub query: String,
    pub limit: usize,
    pub candidate_limit: usize,
}

/// `n` kept within `[lo, hi]`.
pub open spec fn clamp(n: int, lo: int, hi: int) -> int {
    if n < lo {
        lo
    } else if n > hi {
        hi
    } else {
        n
    }
}

/// Plans a search; `None` when the query is blank, which yields no results.
pub fn plan_search(request: &SearchRequest) -> (r: Option<SearchPlan>)
    ensures
        r is None <==> trim(request.query@).len() == 0,
        r matches Some(plan) ==> {
            &&& plan.query@ == trim(request.query@)
            &&& plan.limit == clamp(request.limit as int, 1, 50)
            &&& plan.candidate_limit == clamp(plan.limit * 4, 20, 160)
        },
{
    let query = trim_str(request.query.as_str());
    if query.as_str().is_empty() {
        return None;
    }
    let limit = if request.limit < 1 {
        1
    } else if request.limit > MAX_SEARCH_RESULTS {
        MAX_SEARCH_RESULTS
    } else {
        request.limit
    };
    let wide = limit * 4;
    let candidate_limit = if wide < 20 {
        20
    } else if wide > 160 {
        160
    } else {
        wide
    };
    Some(SearchPlan { query, limit, candidate_limit })
}

/// A passage passes the extension filter when no extensions are named or one of
/// them equals its extension ignoring ASCII case.
pub open spec fn extension_allowed(extensions: Seq<String>, extension: Seq<char>) -> bool {
    extensions.len() == 0 || exists|i: int|
        0 <= i < extensions.len() && eq_ignore_ascii_case(#[trigger] extensions[i]@, extension)
}

/// A passage passes the path filter when no prefix is named or its path begins with it.
pub open spec fn path_allowed(prefix: Option<Seq<char>>, path: Seq<char>) -> bool {
    match prefix {
        None => true,
        Some(p) => is_prefix(p, path),
    }
}

/// Both filters.
pub open spec fn spec_passes_filters(filters: SearchFilters, chunk: ChunkRecord) -> bool {
    extension_allowed(filters.extensions@, chunk.extension@) && path_allowed(
        opt_view(filters.path_prefix),
        chunk.path@,
    )
}

/// Law: a passage passes the filters exactly when no extension is named or it
/// has, ignoring ASCII case, any one of the named extensions, wherever it
/// stands in the list, and its path begins with the named prefix, if any.
pub proof fn lemma_passes_filters_exact(filters: SearchFilters, chunk: ChunkRecord)
    ensures
        spec_passes_filters(filters, chunk) <==> ((filters.extensions@.len() == 0 || exists|i: int|
            0 <= i < filters.extensions@.len() && crate::text::ascii_lowercase(
                #[trigger] filters.extensions@[i]@,
            ) == crate::text::ascii_lowercase(chunk.extension@)) && match filters.path_prefix {
            None => true,
            Some(p) => p@.len() <= chunk.path@.len() && chunk.path@.take(p@.len() as int) == p@,
        }),
{
}

/// Law: naming one more extension never turns away a passage that passed a
/// non-empty extension filter.
pub proof fn lemma_more_extensions_keep_passages(
    filters: SearchFilters,
    wider: SearchFilters,
    added: String,
    chunk: ChunkRecord,
)
    requires
        filters.extensions@.len() > 0,
        wider.extensions@ == filters.extensions@.push(added),
        wider.path_prefix == filters.path_prefix,
        spec_passes_filters(filters, chunk),
    ensures
        spec_passes_filters(wider, chunk),
{
    lemma_passes_filters_exact(filters, chunk);
    lemma_passes_filters_exact(wider, chunk);
    let i = choose|i: int|
        0 <= i < filters.extensions@.len() && crate::text::ascii_lowercase(
            #[trigger] filters.extensions@[i]@,
        ) == crate::text::ascii_lowercase(chunk.extension@);
    assert(wider.extensions@[i] == filters.extensions@[i]);
}

/// Whether a passage passes the search filters.
pub fn passes_filters(filters: &SearchFilters, chunk: &ChunkRecord) -> (r: bool)
    ensures
        r == spec_passes_filters(*filters, *chunk),
{
    if filters.extensions.len() > 0 {
        let mut found = false;
        let mut i: usize = 0;
        while i < filters.extensions.len()
            invariant
                i <= filters.extensions@.len(),
                found == exists|k: int|
                    0 <= k < i && eq_ignore_ascii_case(
                        #[trigger] filters.extensions@[k]@,
                        chunk.extension@,
                    ),
            decreases filters.extensions@.len() - i,
        {
            if eq_ignore_ascii_case_str(filters.extensions[i].as_str(), chunk.extension.as_str()) {
                found = true;
            }
            i += 1;
        }
        if !found {
            return false;
        }
    }
    match &filters.path_prefix {
        Some(prefix) => starts_with_str(chunk.path.as_str(), prefix.as_str()),
        None => true,
    }
}

/// A fused hit with the passage it names.
#[derive(Debug, Clone)]
pub struct RankedChunk {
    pub hit: FusedHit,
    pub chunk: ChunkRecord,
}

/// Some kept result holds the passage `id`.
pub open spec fn holds_passage(results: Seq<RankedChunk>, id: u64) -> bool {
    exists|k: int| 0 <= k < results.len() && #[trigger] results[k].chunk.id == id
}

/// The passage offered for `hit` is kept: it is the passage the hit names, it
/// passes the filters, and no kept result holds it already.
pub open spec fn keeps(results: Seq<RankedChunk>, hit: FusedHit, c: ChunkRecord, filters: SearchFilters) -> bool {
    c.id == hit.id && spec_passes_filters(filters, c) && !holds_passage(results, c.id)
}

/// Gathers search results in rank order: each offered passage that exists, is
/// the one its hit names, passes the filters and is not kept already is kept,
/// until the limit is reached.
#[derive(Debug, Clone)]
pub struct ResultCollector {
    pub limit: usize,
    pub results: Vec<RankedChunk>,
}

impl ResultCollector {
    /// An empty collector for at most `limit` results.
    pub fn new(limit: usize) -> (r: Self)
        ensures
            r.limit == limit,
            r.results@.len() == 0,
            r.well_collected(),
    {
        ResultCollector { limit, results: Vec::new() }
    }

    /// Whether the collector holds `limit` results.
    pub open spec fn is_full(self) -> bool {
        self.results@.len() >= self.limit
    }

    /// The kept results are within the limit, each passage is the one its hit
    /// names, and no passage is kept twice.
    pub open spec fn well_collected(self) -> bool {
        &&& self.results@.len() <= self.limit
        &&& forall|k: int| 0 <= k < self.results@.len() ==> #[trigger] self.results@[k].chunk.id == self.results@[k].hit.id
        &&& forall|i: int, j: int|
            0 <= i < j < self.results@.len() ==> #[trigger] self.results@[i].chunk.id != #[trigger] self.results@[j].chunk.id
    }

    /// Offers the passage found for a hit (or `None` when it no longer exists):
    /// kept when the collector is not yet full and `keeps` holds. Returns whether
    /// the collector is now full.
    pub fn offer(&mut self, hit: FusedHit, chunk: Option<ChunkRecord>, filters: &SearchFilters) -> (full: bool)
        ensures
            final(self).limit == old(self).limit,
            final(self).results@ == match chunk {
                Some(c) => if !old(self).is_full() && keeps(old(self).results@, hit, c, *filters) {
                    old(self).results@.push(RankedChunk { hit, chunk: c })
                } else {
                    old(self).results@
                },
                None => old(self).results@,
            },
            full == final(self).is_full(),
            old(self).well_collected() ==> final(self).well_collected(),
    {
        if self.results.len() < self.limit {
            if let Some(c) = chunk {
                if c.id == hit.id && passes_filters(filters, &c) {
                    let mut k: usize = 0;
                    let mut found = false;
                    while k < self.results.len()
                        invariant
                            k <= self.results@.len(),
                            found == exists|m: int| 0 <= m < k && #[trigger] self.results@[m].chunk.id == c.id,
                        decreases self.results@.len() - k,
                    {
                        if self.results[k].chunk.id == c.id {
                            found = true;
                        }
                        k += 1;
                    }
                    if !found {
                        let ghost before = self.results@;
                        self.results.push(RankedChunk { hit, chunk: c });
                        proof {
                            if old(self).well_collected() {
                                assert forall|i: int, j: int|
                                    0 <= i < j < self.results@.len() implies #[trigger] self.results@[i].chunk.id
                                    != #[trigger] self.results@[j].chunk.id by {
                                    assert(self.results@[i] == before[i]);
                                    if j == before.len() {
                                        assert(self.results@[j].chunk.id == c.id);
                                        assert(before[i].chunk.id != c.id);
                                    } else {
                                        assert(self.results@[j] == before[j]);
                                    }
                                }
                                assert forall|k: int| 0 <= k < self.results@.len() implies #[trigger] self.results@[k].chunk.id
                                    == self.results@[k].hit.id by {
                                    if k < before.len() {
                                        assert(self.results@[k] == before[k]);
                                    }
                                }
                            }
                        }
                    }
                }
            }
        }
        self.results.len() >= self.limit
    }
}

/// What `char::is_alphanumeric` reports: the Unicode `Alphabetic` or numeric property.
pub uninterp spec fn spec_is_alphanumeric(c: char) -> bool;

/// `char::is_alphanumeric`. Claimed: the result is a property of `c` alone;
/// which characters have it is left to the named property.
#[verifier::external_body]
pub(crate) fn is_alphanumeric(c: char) -> (r: bool)
    ensures
        r == spec_is_alphanumeric(c),
{
    c.is_alphanumeric()
}

/// Index of the first character at or after `i` that is not alphanumeric, or the length.
pub open spec fn term_end(s: Seq<char>, i: int) -> int
    decreases s.len() - i,
{
    if i >= s.len() {
        s.len() as int
    } else if !spec_is_alphanumeric(s[i]) {
        i
    } else {
        term_end(s, i + 1)
    }
}

/// A term ends between its start and the end of the query.
pub proof fn lemma_term_end_bounds(s: Seq<char>, i: int)
    requires
        0 <= i <= s.len(),
    ensures
        i <= term_end(s, i) <= s.len(),
    decreases s.len() - i,
{
    if i < s.len() && spec_is_alphanumeric(s[i]) {
        lemma_term_end_bounds(s, i + 1);
    }
}

/// The pieces of `s` from `i` on, split at every non-alphanumeric character,
/// keeping those of more than one character.
pub open spec fn terms_from(s: Seq<char>, i: int) -> Seq<Seq<char>>
    decreases s.len() + 1 - i,
{
    if i < 0 || i > s.len() {
        Seq::empty()
    } else {
        let e = term_end(s, i);
        proof {
            lemma_term_end_bounds(s, i);
        }
        let piece = s.subrange(i, e);
        let rest = if e < s.len() {
            terms_from(s, e + 1)
        } else {
            Seq::<Seq<char>>::empty()
        };
        if piece.len() > 1 {
            seq![piece] + rest
        } else {
            rest
        }
    }
}

/// A term runs up to the first character at or after `i` that is not alphanumeric.
proof fn lemma_term_end_stops(s: Seq<char>, i: int, m: int)
    requires
        0 <= i <= m < s.len(),
        !spec_is_alphanumeric(s[m]),
    ensures
        term_end(s, i) <= m,
    decreases m - i,
{
    if i < m && spec_is_alphanumeric(s[i]) {
        lemma_term_end_stops(s, i + 1, m);
    }
}

/// A term starting at `p` covers the whole run of alphanumeric characters `[p, q)`.
proof fn lemma_term_end_run(s: Seq<char>, p: int, q: int)
    requires
        0 <= p <= q <= s.len(),
        forall|k: int| p <= k < q ==> spec_is_alphanumeric(#[trigger] s[k]),
        q == s.len() || !spec_is_alphanumeric(s[q]),
    ensures
        term_end(s, p) == q,
    decreases q - p,
{
    if p < q {
        lemma_term_end_run(s, p + 1, q);
    }
}

/// Law: every term of a query holds more than one character, all of them
/// alphanumeric.
pub proof fn lemma_terms_are_long_runs(s: Seq<char>, i: int)
    ensures
        forall|k: int|
            0 <= k < terms_from(s, i).len() ==> #[trigger] terms_from(s, i)[k].len() > 1 && forall|
                m: int,
            | 0 <= m < terms_from(s, i)[k].len() ==> spec_is_alphanumeric(terms_from(s, i)[k][m]),
    decreases s.len() + 1 - i,
{
    if 0 <= i <= s.len() {
        let e = term_end(s, i);
        lemma_term_end_bounds(s, i);
        lemma_term_end_alnum(s, i);
        let piece = s.subrange(i, e);
        let rest = if e < s.len() {
            terms_from(s, e + 1)
        } else {
            Seq::<Seq<char>>::empty()
        };
        if e < s.len() {
            lemma_terms_are_long_runs(s, e + 1);
        }
        let all = terms_from(s, i);
        assert forall|k: int| 0 <= k < all.len() implies #[trigger] all[k].len() > 1 && forall|m: int|
            0 <= m < all[k].len() ==> spec_is_alphanumeric(all[k][m]) by {
            if piece.len() > 1 {
                assert(all == seq![piece] + rest);
                if k == 0 {
                    assert forall|m: int| 0 <= m < all[k].len() implies spec_is_alphanumeric(
                        all[k][m],
                    ) by {
                        assert(all[k][m] == s[i + m]);
                    }
                } else {
                    assert(all[k] == rest[k - 1]);
                }
            } else {
                assert(all == rest);
            }
        }
    }
}

/// The characters before `term_end` are alphanumeric.
proof fn lemma_term_end_alnum(s: Seq<char>, i: int)
    requires
        0 <= i <= s.len(),
    ensures
        forall|k: int| i <= k < term_end(s, i) ==> spec_is_alphanumeric(#[trigger] s[k]),
    decreases s.len() - i,
{
    if i < s.len() && spec_is_alphanumeric(s[i]) {
        lemma_term_end_alnum(s, i + 1);
    }
}

/// Law: a quoted term holds no double quote of its own, and a term without
/// double quotes is quoted as it is.
pub proof fn lemma_without_quotes(t: Seq<char>)
    ensures
        forall|k: int| 0 <= k < without_quotes(t).len() ==> #[trigger] without_quotes(t)[k] != '"',
        (forall|k: int| 0 <= k < t.len() ==> #[trigger] t[k] != '"') ==> without_quotes(t) == t,
    decreases t.len(),
{
    if t.len() > 0 {
        lemma_without_quotes(t.drop_last());
        let w = without_quotes(t.drop_last());
        if t.last() != '"' {
            assert forall|k: int| 0 <= k < without_quotes(t).len() implies #[trigger] without_quotes(
                t,
            )[k] != '"' by {
                if k < w.len() {
                    assert(without_quotes(t)[k] == w[k]);
                }
            }
        }
        if forall|k: int| 0 <= k < t.len() ==> #[trigger] t[k] != '"' {
            assert forall|k: int| 0 <= k < t.drop_last().len() implies #[trigger] t.drop_last()[k]
                != '"' by {
                assert(t.drop_last()[k] == t[k]);
            }
            assert(t.drop_last().push(t.last()) =~= t);
        }
    }
}

/// Law: every maximal run `s[p..q)` of alphanumeric characters of a query that
/// holds more than one character is one of its terms, whatever characters it is
/// made of; the terms are taken from `i` on, where `i` starts the query or
/// follows a separator, and `i <= p`.
pub proof fn lemma_long_runs_are_terms(s: Seq<char>, i: int, p: int, q: int)
    requires
        0 <= i <= p,
        p + 1 < q <= s.len(),
        forall|k: int| p <= k < q ==> spec_is_alphanumeric(#[trigger] s[k]),
        p == 0 || !spec_is_alphanumeric(s[p - 1]),
        q == s.len() || !spec_is_alphanumeric(s[q]),
    ensures
        terms_from(s, i).contains(s.subrange(p, q)),
    decreases p - i,
{
    let e = term_end(s, i);
    lemma_term_end_bounds(s, i);
    let piece = s.subrange(i, e);
    let rest = if e < s.len() {
        terms_from(s, e + 1)
    } else {
        Seq::<Seq<char>>::empty()
    };
    let all = terms_from(s, i);
    if i == p {
        lemma_term_end_run(s, p, q);
        assert(piece.len() > 1);
        assert(all == seq![piece] + rest);
        assert(all[0] == s.subrange(p, q));
    } else {
        lemma_term_end_stops(s, i, p - 1);
        assert(e < s.len());
        lemma_long_runs_are_terms(s, e + 1, p, q);
        let k = choose|k: int| 0 <= k < rest.len() && rest[k] == s.subrange(p, q);
        if piece.len() > 1 {
            assert(all == seq![piece] + rest);
            assert(all[k + 1] == s.subrange(p, q));
        } else {
            assert(all == rest);
            assert(all[k] == s.subrange(p, q));
        }
    }
}

/// Law: the keyword query is the first twelve terms (all of them when there are
/// fewer), each quoted, joined by ` OR `; there is none when the query has no term.
pub proof fn lemma_fts_takes_twelve_terms(query: Seq<char>)
    ensures
        terms_from(query, 0).len() == 0 <==> fts_expression_spec(query) is None,
        terms_from(query, 0).len() > 0 ==> fts_expression_spec(query) == Some(
            join_with(
                terms_from(query, 0).take(
                    if terms_from(query, 0).len() < 12 {
                        terms_from(query, 0).len() as int
                    } else {
                        12
                    },
                ).map_values(|t: Seq<char>| seq!['"'] + without_quotes(t) + seq!['"']),
                seq![' ', 'O', 'R', ' '],
            ),
        ),
{
    let all = terms_from(query, 0);
    if all.len() <= 12 {
        assert(all.take(all.len() as int) =~= all);
    }
    reveal_strlit(" OR ");
    assert(" OR "@ =~= seq![' ', 'O', 'R', ' ']);
    let n: int = if all.len() < 12 { all.len() as int } else { 12 };
    let terms = if all.len() > MAX_QUERY_TERMS { all.take(MAX_QUERY_TERMS as int) } else { all };
    assert(terms.map_values(|t: Seq<char>| quoted(t)) =~= all.take(n).map_values(
        |t: Seq<char>| seq!['"'] + without_quotes(t) + seq!['"'],
    ));
}

/// Most terms used in a keyword query.
pub const MAX_QUERY_TERMS: usize = 12;

/// `t` without double quotes.
pub open spec fn without_quotes(t: Seq<char>) -> Seq<char>
    decreases t.len(),
{
    if t.len() == 0 {
        t
    } else if t.last() == '"' {
        without_quotes(t.drop_last())
    } else {
        without_quotes(t.drop_last()).push(t.last())
    }
}

/// A term as a quoted phrase of the full-text query.
pub open spec fn quoted(t: Seq<char>) -> Seq<char> {
    seq!['"'] + without_quotes(t) + seq!['"']
}

/// The full-text query for a search: the first 12 terms of the query, quoted and
/// joined by ` OR `; `None` when the query has no term.
pub open spec fn fts_expression_spec(query: Seq<char>) -> Option<Seq<char>> {
    let all = terms_from(query, 0);
    let terms = if all.len() > MAX_QUERY_TERMS { all.take(MAX_QUERY_TERMS as int) } else { all };
    if terms.len() == 0 {
        None
    } else {
        Some(join_with(terms.map_values(|t: Seq<char>| quoted(t)), " OR "@))
    }
}

fn push_quoted(out: &mut Vec<char>, chars: &Vec<char>, lo: usize, hi: usize)
    requires
        lo <= hi <= chars@.len(),
    ensures
        final(out)@ == old(out)@ + quoted(chars@.subrange(lo as int, hi as int)),
{
    let ghost t = chars@.subrange(lo as int, hi as int);
    out.push('"');
    let ghost start = out@;
    let mut k = lo;
    while k < hi
        invariant
            lo <= k <= hi <= chars@.len(),
            t == chars@.subrange(lo as int, hi as int),
            out@ == start + without_quotes(t.take(k - lo)),
        decreases hi - k,
    {
        assert(t.take(k + 1 - lo).drop_last() =~= t.take(k - lo));
        if chars[k] != '"' {
            out.push(chars[k]);
        }
        k += 1;
        assert(out@ =~= start + without_quotes(t.take(k - lo)));
    }
    assert(t.take(hi - lo) =~= t);
    out.push('"');
    assert(final(out)@ =~= old(out)@ + quoted(t));
}

/// Builds the full-text query for a search (see `fts_expression_spec`).
pub fn fts_expression(query: &str) -> (r: Option<String>)
    ensures
        match r {
            None => fts_expression_spec(query@) is None,
            Some(e) => fts_expression_spec(query@) == Some(e@),
        },
{
    let chars = chars_of(query);
    let ghost s = chars@;
    let n = chars.len();
    let mut out: Vec<char> = Vec::new();
    let mut count: usize = 0;
    let mut i: usize = 0;
    let ghost mut done: Seq<Seq<char>> = Seq::empty();
    loop
        invariant_except_break
            terms_from(s, 0) == done + terms_from(s, i as int),
            i <= n,
            count < MAX_QUERY_TERMS,
        invariant
            n == s.len(),
            s == chars@,
            s == query@,
            count == done.len(),
            count <= MAX_QUERY_TERMS,
            out@ == join_with(done.map_values(|t: Seq<char>| quoted(t)), " OR "@),
        ensures
            done == (if terms_from(s, 0).len() > MAX_QUERY_TERMS {
                terms_from(s, 0).take(MAX_QUERY_TERMS as int)
            } else {
                terms_from(s, 0)
            }),
        decreases n + 1 - i,
    {
        let mut e = i;
        while e < n && is_alphanumeric(chars[e])
            invariant
                i <= e <= n,
                n == s.len(),
                s == chars@,
                term_end(s, i as int) == term_end(s, e as int),
            decreases n - e,
        {
            e += 1;
        }
        proof {
            lemma_term_end_bounds(s, i as int);
        }
        let ghost before = done;
        let ghost piece = s.subrange(i as int, e as int);
        if e - i > 1 {
            let ghost pre = out@;
            if count > 0 {
                out.push(' ');
                out.push('O');
                out.push('R');
                out.push(' ');
            }
            push_quoted(&mut out, &chars, i, e);
            proof {
                done = done.push(piece);
                let q = |t: Seq<char>| quoted(t);
                assert(done.map_values(q) =~= before.map_values(q).push(quoted(piece)));
                assert(done.map_values(q).drop_last() =~= before.map_values(q));
                reveal_strlit(" OR ");
                if before.len() == 0 {
                    assert(out@ =~= quoted(piece));
                } else {
                    assert(out@ =~= join_with(before.map_values(q), " OR "@) + " OR "@ + quoted(piece));
                }
            }
            count += 1;
        }
        if e >= n {
            proof {
                assert(terms_from(s, 0) =~= done);
            }
            break;
        }
        proof {
            if piece.len() > 1 {
                assert(before + terms_from(s, i as int) =~= done + terms_from(s, e + 1));
            }
        }
        i = e + 1;
        if count >= MAX_QUERY_TERMS {
            proof {
                assert((done + terms_from(s, i as int)).take(MAX_QUERY_TERMS as int) =~= done);
            }
            break;
        }
    }
    if count == 0 {
        None
    } else {
        Some(string_from_chars(&out))
    }
}

} // verus!
