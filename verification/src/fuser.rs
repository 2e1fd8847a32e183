//! Late fusion algorithms: the combination functions (CombMAX, CombSUM,
//! CombMNZ, reciprocal-rank fusion) and the grouping-and-reduction engine.

use crate::scoring::clamp_units;
use crate::EntryInfo;
use crate::Rank;
use crate::RankedSearchEntry;
use crate::Score;
use crate::SearchEntry;
use crate::SCALE;
use crate::UNITS_LIMIT;
use vstd::prelude::*;

verus! {

/// The unit counts of a sequence of scores.
pub open spec fn score_views(s: Seq<Score>) -> Seq<int> {
    s.map_values(|x: Score| x@)
}

/// The exact sum of a sequence of unit counts.
pub open spec fn spec_sum(s: Seq<int>) -> int
    decreases s.len(),
{
    if s.len() == 0 {
        0
    } else {
        spec_sum(s.drop_last()) + s.last()
    }
}

/// The sum as CombSUM computes it: each partial sum saturates at the
/// representable bound. Equal to the exact sum whenever magnitudes fit,
/// see [`lemma_sum_sat_exact`].
pub open spec fn spec_sum_sat(s: Seq<int>) -> int
    decreases s.len(),
{
    if s.len() == 0 {
        0
    } else {
        clamp_units(spec_sum_sat(s.drop_last()) + s.last())
    }
}

/// The sum of absolute values of a sequence of unit counts.
pub open spec fn sum_abs(s: Seq<int>) -> int
    decreases s.len(),
{
    if s.len() == 0 {
        0
    } else {
        sum_abs(s.drop_last()) + vstd::math::abs(s.last())
    }
}

/// The maximum of a non-empty sequence of unit counts; zero for the empty
/// sequence, by CombMAX's documented contract.
pub open spec fn spec_max(s: Seq<int>) -> int
    decreases s.len(),
{
    if s.len() == 0 {
        0
    } else if s.len() == 1 {
        s[0]
    } else if s.last() >= spec_max(s.drop_last()) {
        s.last()
    } else {
        spec_max(s.drop_last())
    }
}

/// What CombMNZ computes: the saturating sum scaled by the number of
/// scores, saturating again.
pub open spec fn spec_mnz(s: Seq<int>) -> int {
    clamp_units(s.len() as int * spec_sum_sat(s))
}

/// What reciprocal-rank fusion computes: the sum of SCALE / (1 + r) units
/// over all ranks r. Whenever 1 + r divides SCALE the term is the exact
/// rational 1/(1+r) in score points, see [`lemma_rrf_reciprocals_exact`].
pub open spec fn spec_rrf(ranks: Seq<u32>) -> int
    decreases ranks.len(),
{
    if ranks.len() == 0 {
        0
    } else {
        spec_rrf(ranks.drop_last()) + SCALE as int / (1 + ranks.last() as int)
    }
}

/// CombMAX: the highest score, or zero for an empty sequence.
pub fn comb_max(scores: &Vec<Score>) -> (r: Score)
    ensures
        r@ == spec_max(score_views(scores@)),
{
    let ghost t = score_views(scores@);
    if scores.len() == 0 {
        return Score::zero();
    }
    let mut best = scores[0];
    assert(t.take(1).len() == 1 && t.take(1)[0] == t[0]);
    let mut i: usize = 1;
    while i < scores.len()
        invariant
            1 <= i <= t.len(),
            t == score_views(scores@),
            t.len() == scores@.len(),
            best@ == spec_max(t.take(i as int)),
        decreases t.len() - i,
    {
        let c = scores[i];
        proof {
            assert(t.take(i + 1).drop_last() =~= t.take(i as int));
            assert(t.take(i + 1).last() == t[i as int]);
        }
        if best.le(&c) {
            best = c;
        }
        i += 1;
    }
    proof {
        assert(t.take(t.len() as int) =~= t);
    }
    best
}

/// CombSUM: the sum of all scores, zero for an empty sequence; each
/// partial sum saturates at the representable bound.
pub fn comb_sum(scores: &Vec<Score>) -> (r: Score)
    ensures
        r@ == spec_sum_sat(score_views(scores@)),
{
    let ghost t = score_views(scores@);
    let mut acc = Score::zero();
    let mut i: usize = 0;
    while i < scores.len()
        invariant
            0 <= i <= t.len(),
            t == score_views(scores@),
            t.len() == scores@.len(),
            acc@ == spec_sum_sat(t.take(i as int)),
        decreases t.len() - i,
    {
        proof {
            assert(t.take(i + 1).drop_last() =~= t.take(i as int));
            assert(t.take(i + 1).last() == t[i as int]);
        }
        acc = acc.saturating_add(scores[i]);
        i += 1;
    }
    proof {
        assert(t.take(t.len() as int) =~= t);
    }
    acc
}

/// CombMNZ: the sum of all scores multiplied by the number of scores,
/// rewarding documents retrieved by more sources.
pub fn comb_mnz(scores: &Vec<Score>) -> (r: Score)
    ensures
        r@ == spec_mnz(score_views(scores@)),
{
    let s = comb_sum(scores);
    s.scale_by(scores.len())
}

/// Reciprocal-rank fusion: the score is the sum of 1/(1+r) points over
/// all collected ranks r.
pub fn rrf(ranks: &Vec<Rank>) -> (r: Score)
    ensures
        r@ == spec_rrf(ranks@),
{
    let mut acc: i128 = 0;
    let mut i: usize = 0;
    while i < ranks.len()
        invariant
            0 <= i <= ranks@.len(),
            acc == spec_rrf(ranks@.take(i as int)),
            0 <= acc <= i as int * SCALE as int,
        decreases ranks@.len() - i,
    {
        let d: u128 = 1 + (ranks[i] as u128);
        let term: u128 = (SCALE as u128) / d;
        proof {
            assert(ranks@.take(i + 1).drop_last() =~= ranks@.take(i as int));
            assert(ranks@.take(i + 1).last() == ranks@[i as int]);
            vstd::arithmetic::div_mod::lemma_fundamental_div_mod(SCALE as int, d as int);
            vstd::arithmetic::mul::lemma_mul_inequality(1, d as int, (SCALE as int) / (d as int));
        }
        acc = acc + (term as i128);
        i += 1;
    }
    proof {
        assert(ranks@.take(ranks@.len() as int) =~= ranks@);
    }
    Score::from_units(acc)
}

/// The identifier/payload pairs of a collection, with identifiers as
/// mathematical byte strings.
pub open spec fn pairs_view<P>(s: Seq<(Vec<u8>, P)>) -> Seq<(Seq<u8>, P)> {
    s.map_values(|it: (Vec<u8>, P)| (it.0@, it.1))
}

/// Whether some pair of the collection carries the given identifier.
pub open spec fn has_key<P>(s: Seq<(Seq<u8>, P)>, id: Seq<u8>) -> bool {
    exists|i: int| 0 <= i < s.len() && s[i].0 == id
}

/// The payloads collected under one identifier, in input order: the
/// grouping map's entry for `id`.
pub open spec fn group_payloads<P>(s: Seq<(Seq<u8>, P)>, id: Seq<u8>) -> Seq<P> {
    s.filter(|it: (Seq<u8>, P)| it.0 == id).map_values(|it: (Seq<u8>, P)| it.1)
}

proof fn lemma_group_payloads_push<P>(s: Seq<(Seq<u8>, P)>, it: (Seq<u8>, P), id: Seq<u8>)
    ensures
        it.0 == id ==> group_payloads(s.push(it), id) =~= group_payloads(s, id).push(it.1),
        it.0 != id ==> group_payloads(s.push(it), id) =~= group_payloads(s, id),
{
    let pred = |x: (Seq<u8>, P)| x.0 == id;
    assert(s.push(it).drop_last() =~= s);
    reveal(Seq::filter);
    assert(s.push(it).filter(pred) == if pred(it) {
        s.filter(pred).push(it)
    } else {
        s.filter(pred)
    });
}

proof fn lemma_group_payloads_absent<P>(s: Seq<(Seq<u8>, P)>, id: Seq<u8>)
    requires
        !has_key(s, id),
    ensures
        group_payloads(s, id) =~= Seq::<P>::empty(),
    decreases s.len(),
{
    reveal(Seq::filter);
    if s.len() > 0 {
        assert(forall|i: int| 0 <= i < s.len() - 1 ==> s.drop_last()[i] == s[i]);
        lemma_group_payloads_absent(s.drop_last(), id);
    }
}

/// Grouping is insensitive to the payload representation: mapping every
/// payload through `m` maps every group through `m`.
proof fn lemma_group_payloads_aligned<P, Q>(
    s1: Seq<(Seq<u8>, P)>,
    s2: Seq<(Seq<u8>, Q)>,
    m: spec_fn(P) -> Q,
    id: Seq<u8>,
)
    requires
        s1.len() == s2.len(),
        forall|i: int| #![trigger s2[i]]
            0 <= i < s1.len() ==> s2[i].0 == s1[i].0 && s2[i].1 == m(s1[i].1),
    ensures
        group_payloads(s2, id) =~= group_payloads(s1, id).map_values(m),
        has_key(s2, id) == has_key(s1, id),
    decreases s1.len(),
{
    reveal(Seq::filter);
    if s1.len() == 0 {
        assert(!has_key(s1, id) && !has_key(s2, id));
    } else {
        assert(forall|i: int| 0 <= i < s1.len() - 1 ==> s1.drop_last()[i] == s1[i]);
        assert(forall|i: int| 0 <= i < s2.len() - 1 ==> s2.drop_last()[i] == s2[i]);
        lemma_group_payloads_aligned(s1.drop_last(), s2.drop_last(), m, id);
        assert(s1.drop_last().push(s1.last()) =~= s1);
        assert(s2.drop_last().push(s2.last()) =~= s2);
        lemma_group_payloads_push(s1.drop_last(), s1.last(), id);
        lemma_group_payloads_push(s2.drop_last(), s2.last(), id);
        if has_key(s2, id) {
            let i = choose|i: int| 0 <= i < s2.len() && s2[i].0 == id;
            assert(s1[i].0 == id);
        }
        if has_key(s1, id) {
            let i = choose|i: int| 0 <= i < s1.len() && s1[i].0 == id;
            assert(s2[i].0 == id);
        }
    }
}

/// Byte-string equality, the join key test of the grouping map.
fn bytes_eq(a: &Vec<u8>, b: &Vec<u8>) -> (r: bool)
    ensures
        r == (a@ == b@),
{
    if a.len() != b.len() {
        return false;
    }
    let mut i: usize = 0;
    while i < a.len()
        invariant
            0 <= i <= a@.len(),
            a@.len() == b@.len(),
            forall|j: int| 0 <= j < i ==> a@[j] == b@[j],
        decreases a@.len() - i,
    {
        if a[i] != b[i] {
            return false;
        }
        i += 1;
    }
    proof {
        assert(a@ =~= b@);
    }
    true
}

/// Looks up the group already opened for `id`, if any.
fn find_group<P>(groups: &Vec<(Vec<u8>, Vec<P>)>, id: &Vec<u8>) -> (r: Option<usize>)
    ensures
        match r {
            Some(j) => 0 <= j < groups@.len() && groups@[j as int].0@ == id@,
            None => forall|t: int| #![trigger groups@[t]]
                0 <= t < groups@.len() ==> groups@[t].0@ != id@,
        },
{
    let mut j: usize = 0;
    while j < groups.len()
        invariant
            0 <= j <= groups@.len(),
            forall|t: int| #![trigger groups@[t]] 0 <= t < j ==> groups@[t].0@ != id@,
        decreases groups@.len() - j,
    {
        if bytes_eq(&groups[j].0, id) {
            return Some(j);
        }
        j += 1;
    }
    None
}

/// Builds the grouping map: one group per distinct identifier, holding
/// that identifier's payloads in input order.
fn group_by_id<P: Copy>(items: &Vec<(Vec<u8>, P)>) -> (groups: Vec<(Vec<u8>, Vec<P>)>)
    ensures
        forall|a: int, b: int| #![trigger groups@[a], groups@[b]]
            0 <= a < b < groups@.len() ==> groups@[a].0@ != groups@[b].0@,
        forall|j: int| #![trigger groups@[j]]
            0 <= j < groups@.len() ==> has_key(pairs_view(items@), groups@[j].0@)
                && groups@[j].1@ == group_payloads(pairs_view(items@), groups@[j].0@),
        forall|id: Seq<u8>| #[trigger]
            has_key(pairs_view(items@), id) ==> exists|j: int|
                0 <= j < groups@.len() && groups@[j].0@ == id,
{
    let ghost iv = pairs_view(items@);
    let mut groups: Vec<(Vec<u8>, Vec<P>)> = Vec::new();
    let mut idx: usize = 0;
    while idx < items.len()
        invariant
            0 <= idx <= items@.len(),
            iv == pairs_view(items@),
            iv.len() == items@.len(),
            forall|i: int| #![trigger iv[i]]
                0 <= i < iv.len() ==> iv[i].0 == items@[i].0@ && iv[i].1 == items@[i].1,
            forall|a: int, b: int| #![trigger groups@[a], groups@[b]]
                0 <= a < b < groups@.len() ==> groups@[a].0@ != groups@[b].0@,
            forall|j: int| #![trigger groups@[j]]
                0 <= j < groups@.len() ==> has_key(iv.take(idx as int), groups@[j].0@)
                    && groups@[j].1@ == group_payloads(iv.take(idx as int), groups@[j].0@),
            forall|id: Seq<u8>| #[trigger]
                has_key(iv.take(idx as int), id) ==> exists|j: int|
                    0 <= j < groups@.len() && groups@[j].0@ == id,
        decreases items@.len() - idx,
    {
        let ghost pre = iv.take(idx as int);
        let ghost post = iv.take(idx + 1);
        let ghost cur = iv[idx as int];
        proof {
            assert(post.drop_last() =~= pre);
            assert(post.last() == cur);
            assert(pre.push(cur) =~= post);
        }
        let key_ref = &items[idx].0;
        let payload: P = items[idx].1;
        let ghost prevg = groups@;
        match find_group(&groups, key_ref) {
            Some(j) => {
                let g = &mut groups[j];
                g.1.push(payload);
                proof {
                    assert(groups@.len() == prevg.len());
                    assert(groups@[j as int].0 == prevg[j as int].0);
                    assert(groups@[j as int].1@ == prevg[j as int].1@.push(payload));
                    assert(forall|t: int| #![trigger groups@[t]]
                        0 <= t < groups@.len() && t != j ==> groups@[t] == prevg[t]);
                    assert forall|t: int| #![trigger groups@[t]]
                        0 <= t < groups@.len() implies has_key(post, groups@[t].0@)
                        && groups@[t].1@ == group_payloads(post, groups@[t].0@) by {
                        lemma_group_payloads_push(pre, cur, groups@[t].0@);
                        if t != j {
                            assert(groups@[t] == prevg[t]);
                            assert(prevg[t].0@ != prevg[j as int].0@);
                        } else {
                            assert(groups@[t].0@ == cur.0);
                            assert(groups@[t].1@ =~= prevg[t].1@.push(payload));
                        }
                    }
                    assert forall|id: Seq<u8>| #[trigger]
                        has_key(post, id) implies exists|j2: int|
                        0 <= j2 < groups@.len() && groups@[j2].0@ == id by {
                        let i = choose|i: int| 0 <= i < post.len() && post[i].0 == id;
                        if i < pre.len() {
                            assert(pre[i].0 == id);
                            assert(has_key(pre, id));
                            let j2 = choose|j2: int|
                                0 <= j2 < prevg.len() && prevg[j2].0@ == id;
                            assert(groups@[j2].0@ == id);
                        } else {
                            assert(groups@[j as int].0@ == id);
                        }
                    }
                }
            },
            None => {
                let key = key_ref.clone();
                proof {
                    assert(key@ =~= cur.0);
                }
                let mut v: Vec<P> = Vec::new();
                v.push(payload);
                groups.push((key, v));
                proof {
                    assert(!has_key(pre, cur.0)) by {
                        if has_key(pre, cur.0) {
                            let j2 = choose|j2: int|
                                0 <= j2 < prevg.len() && prevg[j2].0@ == cur.0;
                            assert(prevg[j2].0@ == cur.0);
                        }
                    }
                    lemma_group_payloads_absent(pre, cur.0);
                    assert forall|t: int| #![trigger groups@[t]]
                        0 <= t < groups@.len() implies has_key(post, groups@[t].0@)
                        && groups@[t].1@ == group_payloads(post, groups@[t].0@) by {
                        lemma_group_payloads_push(pre, cur, groups@[t].0@);
                        if t < prevg.len() {
                            assert(groups@[t] == prevg[t]);
                        } else {
                            assert(groups@[t].0@ == cur.0);
                            assert(groups@[t].1@ =~= Seq::<P>::empty().push(payload));
                            assert(group_payloads(post, cur.0) =~= group_payloads(
                                pre,
                                cur.0,
                            ).push(cur.1));
                        }
                    }
                    assert forall|a: int, b: int| #![trigger groups@[a], groups@[b]]
                        0 <= a < b < groups@.len() implies groups@[a].0@ != groups@[b].0@ by {
                        if b == groups@.len() - 1 {
                            assert(groups@[a] == prevg[a]);
                        }
                    }
                    assert forall|id: Seq<u8>| #[trigger]
                        has_key(post, id) implies exists|j2: int|
                        0 <= j2 < groups@.len() && groups@[j2].0@ == id by {
                        let i = choose|i: int| 0 <= i < post.len() && post[i].0 == id;
                        if i < pre.len() {
                            assert(pre[i].0 == id);
                            assert(has_key(pre, id));
                            let j2 = choose|j2: int|
                                0 <= j2 < prevg.len() && prevg[j2].0@ == id;
                            assert(groups@[j2].0@ == id);
                        } else {
                            assert(groups@[groups@.len() - 1].0@ == id);
                        }
                    }
                }
            },
        }
        idx += 1;
    }
    proof {
        assert(iv.take(iv.len() as int) =~= iv);
    }
    groups
}

/// CombMAX returns the maximum: for a non-empty sequence of scores the
/// result is one of them and no score exceeds it; for the empty sequence
/// it is zero.
pub proof fn lemma_comb_max_is_maximum(s: Seq<int>)
    ensures
        s.len() == 0 ==> spec_max(s) == 0,
        s.len() > 0 ==> s.contains(spec_max(s)),
        forall|i: int| 0 <= i < s.len() ==> s[i] <= spec_max(s),
    decreases s.len(),
{
    if s.len() > 1 {
        lemma_comb_max_is_maximum(s.drop_last());
        assert forall|i: int| 0 <= i < s.len() implies s[i] <= spec_max(s) by {
            if i < s.len() - 1 {
                assert(s.drop_last()[i] == s[i]);
            }
        }
        if spec_max(s) != s.last() {
            let j = choose|j: int|
                0 <= j < s.drop_last().len() && s.drop_last()[j] == spec_max(s.drop_last());
            assert(s[j] == spec_max(s));
        }
    }
}

/// CombMAX and CombSUM of the empty score sequence are zero, by their
/// documented contract.
pub proof fn lemma_empty_combination_is_zero()
    ensures
        spec_max(Seq::<int>::empty()) == 0,
        spec_sum(Seq::<int>::empty()) == 0,
        spec_sum_sat(Seq::<int>::empty()) == 0,
{
}

/// The magnitude of an exact sum is at most the sum of magnitudes.
pub proof fn lemma_sum_within_sum_abs(s: Seq<int>)
    ensures
        vstd::math::abs(spec_sum(s)) <= sum_abs(s),
    decreases s.len(),
{
    if s.len() > 0 {
        lemma_sum_within_sum_abs(s.drop_last());
    }
}

/// The saturating sum is the exact sum whenever the sum of magnitudes
/// stays within the representable bound: CombSUM is then exact.
pub proof fn lemma_sum_sat_exact(s: Seq<int>)
    requires
        sum_abs(s) <= UNITS_LIMIT as int,
    ensures
        spec_sum_sat(s) == spec_sum(s),
    decreases s.len(),
{
    if s.len() > 0 {
        lemma_sum_sat_exact(s.drop_last());
        lemma_sum_within_sum_abs(s.drop_last());
    }
}

/// CombMNZ is the length times CombSUM, whenever the arithmetic stays
/// within the representable bound.
pub proof fn lemma_comb_mnz_law(s: Seq<int>)
    requires
        sum_abs(s) <= UNITS_LIMIT as int,
        s.len() as int * vstd::math::abs(spec_sum(s)) <= UNITS_LIMIT as int,
    ensures
        spec_mnz(s) == s.len() as int * spec_sum(s),
{
    lemma_sum_sat_exact(s);
    lemma_sum_within_sum_abs(s);
    if spec_sum(s) != 0 {
        vstd::arithmetic::mul::lemma_mul_inequality(
            0,
            s.len() as int,
            vstd::math::abs(spec_sum(s)) as int,
        );
    }
    assert(vstd::math::abs(s.len() as int * spec_sum(s)) == s.len() as int * vstd::math::abs(
        spec_sum(s),
    )) by (nonlinear_arith);
}

/// Each reciprocal-rank term is exact: whenever 1 + r divides SCALE,
/// multiplying the term SCALE / (1 + r) back by 1 + r yields one whole
/// score point, so [`spec_rrf`] is the exact sum of the rationals
/// 1/(1+r) expressed in units.
pub proof fn lemma_rrf_reciprocals_exact(ranks: Seq<u32>)
    ensures
        forall|i: int|
            0 <= i < ranks.len() && #[trigger] (SCALE as int % (1 + ranks[i] as int)) == 0
                ==> SCALE as int / (1 + ranks[i] as int) * (1 + ranks[i] as int) == SCALE as int,
{
    assert forall|i: int|
        0 <= i < ranks.len() && #[trigger] (SCALE as int % (1 + ranks[i] as int)) == 0
            implies SCALE as int / (1 + ranks[i] as int) * (1 + ranks[i] as int)
        == SCALE as int by {
        vstd::arithmetic::div_mod::lemma_fundamental_div_mod(
            SCALE as int,
            1 + ranks[i] as int,
        );
    }
}

/// Descending order by score over a fused output list.
pub open spec fn sorted_desc(s: Seq<EntryInfo>) -> bool {
    forall|a: int, b: int| #![trigger s[a], s[b]]
        0 <= a < b < s.len() ==> s[a].score@ >= s[b].score@
}

/// No document identifier appears twice.
pub open spec fn distinct_ids(s: Seq<EntryInfo>) -> bool {
    forall|a: int, b: int| #![trigger s[a], s[b]]
        0 <= a < b < s.len() ==> s[a].id@ != s[b].id@
}

/// A permutation of a list with pairwise distinct identifiers again has
/// pairwise distinct identifiers.
proof fn lemma_permutation_keeps_distinct_ids(s1: Seq<EntryInfo>, s2: Seq<EntryInfo>)
    requires
        s1.to_multiset() == s2.to_multiset(),
        distinct_ids(s1),
    ensures
        distinct_ids(s2),
{
    broadcast use vstd::seq_lib::group_to_multiset_ensures;

    assert(s1.no_duplicates()) by {
        assert forall|a: int, b: int|
            0 <= a < s1.len() && 0 <= b < s1.len() && a != b implies s1[a] != s1[b] by {
            if a < b {
                assert(s1[a].id@ != s1[b].id@);
            } else {
                assert(s1[b].id@ != s1[a].id@);
            }
        }
    }
    s1.lemma_multiset_has_no_duplicates();
    s2.lemma_multiset_has_no_duplicates_conv();
    assert forall|a: int, b: int| #![trigger s2[a], s2[b]]
        0 <= a < b < s2.len() implies s2[a].id@ != s2[b].id@ by {
        assert(s2[a] != s2[b]);
        assert(s1.to_multiset().count(s2[a]) > 0);
        assert(s1.to_multiset().count(s2[b]) > 0);
        let k1 = choose|k: int| 0 <= k < s1.len() && s1[k] == s2[a];
        let k2 = choose|k: int| 0 <= k < s1.len() && s1[k] == s2[b];
        if k1 < k2 {
            assert(s1[k1].id@ != s1[k2].id@);
        } else {
            assert(s1[k2].id@ != s1[k1].id@);
        }
    }
}

/// Sorts a fused list by descending score. The result is a permutation
/// of the input; ties keep no particular order.
fn sort_by_score_desc(input: Vec<EntryInfo>) -> (r: Vec<EntryInfo>)
    ensures
        r@.to_multiset() == input@.to_multiset(),
        sorted_desc(r@),
{
    let ghost iv = input@;
    let mut rest = input;
    let mut out: Vec<EntryInfo> = Vec::new();
    proof {
        broadcast use vstd::seq_lib::group_to_multiset_ensures;
        broadcast use vstd::multiset::group_multiset_axioms;

        assert(out@.to_multiset().add(rest@.to_multiset()) =~= iv.to_multiset());
    }
    while rest.len() > 0
        invariant
            out@.to_multiset().add(rest@.to_multiset()) == iv.to_multiset(),
            sorted_desc(out@),
            forall|a: int, b: int| #![trigger out@[a], rest@[b]]
                0 <= a < out@.len() && 0 <= b < rest@.len() ==> out@[a].score@
                    >= rest@[b].score@,
        decreases rest@.len(),
    {
        let mut k: usize = 0;
        let mut j: usize = 1;
        while j < rest.len()
            invariant
                0 <= k < j <= rest@.len(),
                rest@.len() > 0,
                forall|t: int| #![trigger rest@[t]]
                    0 <= t < j ==> rest@[t].score@ <= rest@[k as int].score@,
            decreases rest@.len() - j,
        {
            if rest[k].score.le(&rest[j].score) {
                k = j;
            }
            j += 1;
        }
        let ghost old_rest = rest@;
        let ghost old_out = out@;
        let ghost ge = old_rest[k as int];
        let e = rest.remove(k);
        out.push(e);
        proof {
            broadcast use vstd::seq_lib::group_to_multiset_ensures;
            broadcast use vstd::multiset::group_multiset_axioms;

            old_rest.remove_ensures(k as int);
            assert(old_rest.contains(ge));
            assert(old_rest.to_multiset().count(ge) > 0);
            assert(out@.to_multiset().add(rest@.to_multiset()) =~= old_out.to_multiset().add(
                old_rest.to_multiset(),
            ));
            assert forall|a: int, b: int| #![trigger out@[a], rest@[b]]
                0 <= a < out@.len() && 0 <= b < rest@.len() implies out@[a].score@
                >= rest@[b].score@ by {
                if a < old_out.len() {
                    assert(out@[a] == old_out[a]);
                } else {
                    assert(out@[a] == ge);
                }
                if b < k {
                    assert(rest@[b] == old_rest[b]);
                } else {
                    assert(rest@[b] == old_rest[b + 1]);
                }
            }
            assert forall|a: int, b: int| #![trigger out@[a], out@[b]]
                0 <= a < b < out@.len() implies out@[a].score@ >= out@[b].score@ by {
                if b < old_out.len() {
                    assert(out@[a] == old_out[a] && out@[b] == old_out[b]);
                } else {
                    assert(out@[b] == ge);
                    assert(out@[a] == old_out[a]);
                }
            }
        }
    }
    out
}


/// The identifier and unit count carried by each entry of a scored list.
pub open spec fn keyed_scores<R: SearchEntry>(s: Seq<R>) -> Seq<(Seq<u8>, int)> {
    s.map_values(|e: R| (e.id_spec(), e.score_spec()))
}

/// The identifier and rank carried by each entry of a ranked list.
pub open spec fn keyed_ranks<R: RankedSearchEntry>(s: Seq<R>) -> Seq<(Seq<u8>, u32)> {
    s.map_values(|e: R| (e.id_spec(), e.rank_spec()))
}

/// A rank paired with a score: the payload of hybrid fusion.
pub type RankedScore = (Rank, Score);

/// The rank and unit count carried by each payload of hybrid fusion.
pub open spec fn ranked_score_views(s: Seq<RankedScore>) -> Seq<(u32, int)> {
    s.map_values(|p: RankedScore| (p.0, p.1@))
}

/// The identifier, rank and unit count carried by each entry.
pub open spec fn keyed_hybrid<R: RankedSearchEntry>(s: Seq<R>) -> Seq<(Seq<u8>, (u32, int))> {
    s.map_values(|e: R| (e.id_spec(), (e.rank_spec(), e.score_spec())))
}

/// The grouping-and-reduction engine shared by every fusion operation:
/// groups the keyed `items` by identifier, reduces each group's payload
/// sequence through `fuser`, and sorts the combined entries by descending
/// score. `ks` is the caller's mathematical reading of `items`, obtained
/// by mapping each payload through `m`.
fn fuse_pairs<P: Copy, Q, F: Fn(&Vec<P>) -> Score>(
    items: Vec<(Vec<u8>, P)>,
    fuser: F,
    Ghost(ks): Ghost<Seq<(Seq<u8>, Q)>>,
    Ghost(m): Ghost<spec_fn(P) -> Q>,
) -> (r: Vec<EntryInfo>)
    requires
        forall|v: Vec<P>| #[trigger] call_requires(fuser, (&v,)),
        ks.len() == items@.len(),
        forall|i: int| #![trigger ks[i]]
            0 <= i < ks.len() ==> ks[i].0 == items@[i].0@ && ks[i].1 == m(items@[i].1),
    ensures
        distinct_ids(r@),
        sorted_desc(r@),
        forall|j: int| #![trigger r@[j]]
            0 <= j < r@.len() ==> has_key(ks, r@[j].id@) && (exists|v: Vec<P>|
                v@.map_values(m) == group_payloads(ks, r@[j].id@) && call_ensures(
                    fuser,
                    (&v,),
                    r@[j].score,
                )),
        forall|id: Seq<u8>| #[trigger]
            has_key(ks, id) ==> (exists|j: int| 0 <= j < r@.len() && r@[j].id@ == id),
{
    let ghost isv = pairs_view(items@);
    proof {
        assert(forall|i: int| #![trigger isv[i]]
            0 <= i < isv.len() ==> isv[i].0 == items@[i].0@ && isv[i].1 == items@[i].1);
    }
    let groups = group_by_id(&items);
    let mut g = groups;
    let mut flat: Vec<EntryInfo> = Vec::new();
    while g.len() > 0
        invariant
            forall|v: Vec<P>| #[trigger] call_requires(fuser, (&v,)),
            forall|t: int| #![trigger g@[t]]
                0 <= t < g@.len() ==> has_key(isv, g@[t].0@) && g@[t].1@ == group_payloads(
                    isv,
                    g@[t].0@,
                ),
            forall|a: int, b: int| #![trigger g@[a], g@[b]]
                0 <= a < b < g@.len() ==> g@[a].0@ != g@[b].0@,
            forall|a: int, b: int| #![trigger flat@[a], g@[b]]
                0 <= a < flat@.len() && 0 <= b < g@.len() ==> flat@[a].id@ != g@[b].0@,
            distinct_ids(flat@),
            forall|j: int| #![trigger flat@[j]]
                0 <= j < flat@.len() ==> has_key(ks, flat@[j].id@) && exists|v: Vec<P>|
                    v@.map_values(m) == group_payloads(ks, flat@[j].id@) && call_ensures(
                        fuser,
                        (&v,),
                        flat@[j].score,
                    ),
            forall|id: Seq<u8>| #[trigger]
                has_key(isv, id) ==> (exists|j: int|
                    0 <= j < flat@.len() && flat@[j].id@ == id) || (exists|t: int|
                    0 <= t < g@.len() && g@[t].0@ == id),
            ks.len() == isv.len(),
            forall|i: int| #![trigger ks[i], isv[i]]
                0 <= i < ks.len() ==> ks[i].0 == isv[i].0 && ks[i].1 == m(isv[i].1),
        decreases g@.len(),
    {
        let ghost old_g = g@;
        let ghost old_flat = flat@;
        let grp = g.pop().unwrap();
        let (key, pv) = grp;
        let ghost gkey = key@;
        proof {
            assert(old_g[old_g.len() - 1].0@ == gkey);
            assert(pv@ == group_payloads(isv, gkey));
            assert(forall|t: int| #![trigger g@[t]] 0 <= t < g@.len() ==> g@[t] == old_g[t]);
            lemma_group_payloads_aligned(isv, ks, m, gkey);
            assert(pv@.map_values(m) =~= group_payloads(ks, gkey));
            assert(has_key(ks, gkey) == has_key(isv, gkey));
        }
        let sc = fuser(&pv);
        flat.push(EntryInfo { id: key, score: sc });
        proof {
            assert(flat@ == old_flat.push(EntryInfo { id: key, score: sc }));
            assert(flat@[flat@.len() - 1].id@ == gkey);
            assert(forall|t: int| #![trigger flat@[t]]
                0 <= t < old_flat.len() ==> flat@[t] == old_flat[t]);
            assert forall|j: int| #![trigger flat@[j]]
                0 <= j < flat@.len() implies has_key(ks, flat@[j].id@) && exists|v: Vec<P>|
                v@.map_values(m) == group_payloads(ks, flat@[j].id@) && call_ensures(
                    fuser,
                    (&v,),
                    flat@[j].score,
                ) by {
                if j < old_flat.len() {
                } else {
                    assert(flat@[j].id@ == gkey && flat@[j].score == sc);
                    assert(pv@.map_values(m) == group_payloads(ks, gkey));
                    assert(call_ensures(fuser, (&pv,), sc));
                }
            }
            assert forall|id: Seq<u8>| #[trigger]
                has_key(isv, id) implies (exists|j: int|
                0 <= j < flat@.len() && flat@[j].id@ == id) || (exists|t: int|
                0 <= t < g@.len() && g@[t].0@ == id) by {
                if exists|j: int| 0 <= j < old_flat.len() && old_flat[j].id@ == id {
                    let j = choose|j: int| 0 <= j < old_flat.len() && old_flat[j].id@ == id;
                    assert(flat@[j].id@ == id);
                } else {
                    let t = choose|t: int| 0 <= t < old_g.len() && old_g[t].0@ == id;
                    if t < old_g.len() - 1 {
                        assert(g@[t].0@ == id);
                    } else {
                        assert(flat@[flat@.len() - 1].id@ == id);
                    }
                }
            }
            assert forall|a: int, b: int| #![trigger flat@[a], g@[b]]
                0 <= a < flat@.len() && 0 <= b < g@.len() implies flat@[a].id@ != g@[b].0@ by {
                assert(g@[b] == old_g[b]);
                if a < old_flat.len() {
                    assert(flat@[a] == old_flat[a]);
                } else {
                    assert(flat@[a].id@ == old_g[old_g.len() - 1].0@);
                }
            }
            assert forall|a: int, b: int| #![trigger flat@[a], flat@[b]]
                0 <= a < b < flat@.len() implies flat@[a].id@ != flat@[b].id@ by {
                if b < old_flat.len() {
                    assert(flat@[a] == old_flat[a] && flat@[b] == old_flat[b]);
                } else {
                    assert(flat@[b].id@ == old_g[old_g.len() - 1].0@);
                    assert(flat@[a] == old_flat[a]);
                }
            }
        }
    }
    let ghost fv = flat@;
    let r = sort_by_score_desc(flat);
    proof {
        broadcast use vstd::seq_lib::group_to_multiset_ensures;

        lemma_permutation_keeps_distinct_ids(fv, r@);
        assert forall|j: int| #![trigger r@[j]]
            0 <= j < r@.len() implies has_key(ks, r@[j].id@) && exists|v: Vec<P>|
            v@.map_values(m) == group_payloads(ks, r@[j].id@) && call_ensures(
                fuser,
                (&v,),
                r@[j].score,
            ) by {
            assert(r@.to_multiset().count(r@[j]) > 0);
            assert(fv.contains(r@[j]));
            let t = choose|t: int| 0 <= t < fv.len() && fv[t] == r@[j];
            assert(has_key(ks, fv[t].id@));
        }
        assert forall|id: Seq<u8>| #[trigger]
            has_key(ks, id) implies exists|j: int| 0 <= j < r@.len() && r@[j].id@ == id by {
            assert(has_key(isv, id)) by {
                let i = choose|i: int| 0 <= i < ks.len() && ks[i].0 == id;
                assert(isv[i].0 == id);
            }
            let t = choose|t: int| 0 <= t < fv.len() && fv[t].id@ == id;
            assert(fv.to_multiset().count(fv[t]) > 0);
            assert(r@.contains(fv[t]));
            let j = choose|j: int| 0 <= j < r@.len() && r@[j] == fv[t];
            assert(r@[j].id@ == id);
        }
    }
    r
}

/// Fuses scored results: groups the entries by document identifier,
/// collects each group's scores in input order, reduces every group
/// through `fuser`, and returns one entry per distinct identifier,
/// sorted by descending combined score.
pub fn fuse_scored<R: SearchEntry, F: Fn(&Vec<Score>) -> Score>(
    entries: &Vec<R>,
    fuser: F,
) -> (r: Vec<EntryInfo>)
    requires
        forall|v: Vec<Score>| #[trigger] call_requires(fuser, (&v,)),
    ensures
        ({
            let ks = keyed_scores(entries@);
            &&& distinct_ids(r@)
            &&& sorted_desc(r@)
            &&& forall|j: int| #![trigger r@[j]]
                0 <= j < r@.len() ==> has_key(ks, r@[j].id@) && (exists|v: Vec<Score>|
                    score_views(v@) == group_payloads(ks, r@[j].id@) && call_ensures(
                        fuser,
                        (&v,),
                        r@[j].score,
                    ))
            &&& forall|id: Seq<u8>| #[trigger]
                has_key(ks, id) ==> exists|j: int| 0 <= j < r@.len() && r@[j].id@ == id
        }),
{
    let ghost ks = keyed_scores(entries@);
    let ghost m: spec_fn(Score) -> int = |x: Score| x@;
    let mut items: Vec<(Vec<u8>, Score)> = Vec::new();
    let mut i: usize = 0;
    while i < entries.len()
        invariant
            0 <= i <= entries@.len(),
            ks == keyed_scores(entries@),
            ks.len() == entries@.len(),
            items@.len() == i,
            forall|t: int| #![trigger items@[t]]
                0 <= t < i ==> items@[t].0@ == entries@[t].id_spec() && items@[t].1@
                    == entries@[t].score_spec(),
        decreases entries@.len() - i,
    {
        let e = &entries[i];
        let key = e.id().clone();
        proof {
            assert(key@ =~= entries@[i as int].id_spec());
        }
        let sc = e.score();
        items.push((key, sc));
        i += 1;
    }
    let r = fuse_pairs::<_, int, _>(items, fuser, Ghost(ks), Ghost(m));
    proof {
        assert forall|j: int| #![trigger r@[j]]
            0 <= j < r@.len() implies has_key(ks, r@[j].id@) && exists|v: Vec<Score>|
            score_views(v@) == group_payloads(ks, r@[j].id@) && call_ensures(
                fuser,
                (&v,),
                r@[j].score,
            ) by {
            let v = choose|v: Vec<Score>|
                v@.map_values(m) == group_payloads(ks, r@[j].id@) && call_ensures(
                    fuser,
                    (&v,),
                    r@[j].score,
                );
            assert(score_views(v@) =~= v@.map_values(m));
            assert(score_views(v@) == group_payloads(ks, r@[j].id@) && call_ensures(
                fuser,
                (&v,),
                r@[j].score,
            ));
        }
    }
    r
}

/// Fuses two scored result lists with a score-based combination function.
/// Grouping is purely by identifier, so this equals concatenating the two
/// lists (in their minimal entry form) and fusing once.
pub fn fuse_scored_lists<R1: SearchEntry, R2: SearchEntry, F: Fn(&Vec<Score>) -> Score>(
    results1: &Vec<R1>,
    results2: &Vec<R2>,
    fuser: F,
) -> (r: Vec<EntryInfo>)
    requires
        forall|v: Vec<Score>| #[trigger] call_requires(fuser, (&v,)),
    ensures
        ({
            let ks = keyed_scores(results1@) + keyed_scores(results2@);
            &&& distinct_ids(r@)
            &&& sorted_desc(r@)
            &&& forall|j: int| #![trigger r@[j]]
                0 <= j < r@.len() ==> has_key(ks, r@[j].id@) && exists|v: Vec<Score>|
                    score_views(v@) == group_payloads(ks, r@[j].id@) && call_ensures(
                        fuser,
                        (&v,),
                        r@[j].score,
                    )
            &&& forall|id: Seq<u8>| #[trigger]
                has_key(ks, id) ==> exists|j: int| 0 <= j < r@.len() && r@[j].id@ == id
        }),
{
    let ghost ks = keyed_scores(results1@) + keyed_scores(results2@);
    let mut all: Vec<EntryInfo> = Vec::new();
    let mut i: usize = 0;
    while i < results1.len()
        invariant
            0 <= i <= results1@.len(),
            all@.len() == i,
            forall|t: int| #![trigger all@[t]]
                0 <= t < i ==> all@[t].id@ == results1@[t].id_spec() && all@[t].score@
                    == results1@[t].score_spec(),
        decreases results1@.len() - i,
    {
        let e = results1[i].to_entry();
        all.push(e);
        i += 1;
    }
    let ghost n1 = results1@.len() as int;
    let mut i2: usize = 0;
    while i2 < results2.len()
        invariant
            0 <= i2 <= results2@.len(),
            all@.len() == n1 + i2,
            n1 == results1@.len(),
            forall|t: int| #![trigger all@[t]]
                0 <= t < n1 ==> all@[t].id@ == results1@[t].id_spec() && all@[t].score@
                    == results1@[t].score_spec(),
            forall|t: int| #![trigger all@[t]]
                n1 <= t < n1 + i2 ==> all@[t].id@ == results2@[t - n1].id_spec()
                    && all@[t].score@ == results2@[t - n1].score_spec(),
        decreases results2@.len() - i2,
    {
        let e = results2[i2].to_entry();
        all.push(e);
        i2 += 1;
    }
    proof {
        assert(keyed_scores(all@) =~= ks);
    }
    let r = fuse_scored(&all, fuser);
    proof {
        assert(keyed_scores(all@) == ks);
        assert(distinct_ids(r@));
        assert(sorted_desc(r@));
        assert(forall|j: int| #![trigger r@[j]]
            0 <= j < r@.len() ==> has_key(ks, r@[j].id@) && (exists|v: Vec<Score>|
                score_views(v@) == group_payloads(ks, r@[j].id@) && call_ensures(
                    fuser,
                    (&v,),
                    r@[j].score,
                )));
        assert(forall|id: Seq<u8>| #[trigger]
            has_key(ks, id) ==> exists|j: int| 0 <= j < r@.len() && r@[j].id@ == id);
    }
    r
}

/// Fuses ranked results: identical grouping and sorting, but each group
/// collects ranks, and `fuser` maps a rank sequence to a score.
pub fn fuse_ranked<R: RankedSearchEntry, F: Fn(&Vec<Rank>) -> Score>(
    entries: &Vec<R>,
    fuser: F,
) -> (r: Vec<EntryInfo>)
    requires
        forall|v: Vec<Rank>| #[trigger] call_requires(fuser, (&v,)),
    ensures
        ({
            let ks = keyed_ranks(entries@);
            &&& distinct_ids(r@)
            &&& sorted_desc(r@)
            &&& forall|j: int| #![trigger r@[j]]
                0 <= j < r@.len() ==> has_key(ks, r@[j].id@) && (exists|v: Vec<Rank>|
                    v@ == group_payloads(ks, r@[j].id@) && call_ensures(
                        fuser,
                        (&v,),
                        r@[j].score,
                    ))
            &&& forall|id: Seq<u8>| #[trigger]
                has_key(ks, id) ==> exists|j: int| 0 <= j < r@.len() && r@[j].id@ == id
        }),
{
    let ghost ks = keyed_ranks(entries@);
    let ghost m: spec_fn(Rank) -> u32 = |x: Rank| x;
    let mut items: Vec<(Vec<u8>, Rank)> = Vec::new();
    let mut i: usize = 0;
    while i < entries.len()
        invariant
            0 <= i <= entries@.len(),
            ks == keyed_ranks(entries@),
            ks.len() == entries@.len(),
            items@.len() == i,
            forall|t: int| #![trigger items@[t]]
                0 <= t < i ==> items@[t].0@ == entries@[t].id_spec() && items@[t].1
                    == entries@[t].rank_spec(),
        decreases entries@.len() - i,
    {
        let e = &entries[i];
        let key = e.id().clone();
        proof {
            assert(key@ =~= entries@[i as int].id_spec());
        }
        let rk = e.rank();
        items.push((key, rk));
        i += 1;
    }
    let r = fuse_pairs::<_, u32, _>(items, fuser, Ghost(ks), Ghost(m));
    proof {
        assert forall|j: int| #![trigger r@[j]]
            0 <= j < r@.len() implies has_key(ks, r@[j].id@) && exists|v: Vec<Rank>|
            v@ == group_payloads(ks, r@[j].id@) && call_ensures(fuser, (&v,), r@[j].score) by {
            let v = choose|v: Vec<Rank>|
                v@.map_values(m) == group_payloads(ks, r@[j].id@) && call_ensures(
                    fuser,
                    (&v,),
                    r@[j].score,
                );
            assert(v@ =~= v@.map_values(m));
            assert(v@ == group_payloads(ks, r@[j].id@) && call_ensures(
                fuser,
                (&v,),
                r@[j].score,
            ));
        }
    }
    r
}

/// Fuses ranked and scored results: each group collects its (rank, score)
/// pairs, and `fuser` maps a pair sequence to a score. This is the general
/// form of which the other fusion operations are specializations.
pub fn fuse_hybrid<R: RankedSearchEntry, F: Fn(&Vec<RankedScore>) -> Score>(
    entries: &Vec<R>,
    fuser: F,
) -> (r: Vec<EntryInfo>)
    requires
        forall|v: Vec<RankedScore>| #[trigger] call_requires(fuser, (&v,)),
    ensures
        ({
            let ks = keyed_hybrid(entries@);
            &&& distinct_ids(r@)
            &&& sorted_desc(r@)
            &&& forall|j: int| #![trigger r@[j]]
                0 <= j < r@.len() ==> has_key(ks, r@[j].id@) && (exists|v: Vec<RankedScore>|
                    ranked_score_views(v@) == group_payloads(ks, r@[j].id@) && call_ensures(
                        fuser,
                        (&v,),
                        r@[j].score,
                    ))
            &&& forall|id: Seq<u8>| #[trigger]
                has_key(ks, id) ==> exists|j: int| 0 <= j < r@.len() && r@[j].id@ == id
        }),
{
    let ghost ks = keyed_hybrid(entries@);
    let ghost m: spec_fn(RankedScore) -> (u32, int) = (|p: RankedScore| (p.0, p.1@));
    let mut items: Vec<(Vec<u8>, RankedScore)> = Vec::new();
    let mut i: usize = 0;
    while i < entries.len()
        invariant
            0 <= i <= entries@.len(),
            ks == keyed_hybrid(entries@),
            ks.len() == entries@.len(),
            items@.len() == i,
            forall|t: int| #![trigger items@[t]]
                0 <= t < i ==> items@[t].0@ == entries@[t].id_spec() && items@[t].1.0
                    == entries@[t].rank_spec() && items@[t].1.1@ == entries@[t].score_spec(),
        decreases entries@.len() - i,
    {
        let e = &entries[i];
        let key = e.id().clone();
        proof {
            assert(key@ =~= entries@[i as int].id_spec());
        }
        let rk = e.rank();
        let sc = e.score();
        items.push((key, (rk, sc)));
        i += 1;
    }
    let r = fuse_pairs::<_, (u32, int), _>(items, fuser, Ghost(ks), Ghost(m));
    proof {
        assert forall|j: int| #![trigger r@[j]]
            0 <= j < r@.len() implies has_key(ks, r@[j].id@) && (exists|v: Vec<RankedScore>|
            ranked_score_views(v@) == group_payloads(ks, r@[j].id@) && call_ensures(
                fuser,
                (&v,),
                r@[j].score,
            )) by {
            let v = choose|v: Vec<RankedScore>|
                v@.map_values(m) == group_payloads(ks, r@[j].id@) && call_ensures(
                    fuser,
                    (&v,),
                    r@[j].score,
                );
            assert(ranked_score_views(v@) =~= v@.map_values(m));
            assert(ranked_score_views(v@) == group_payloads(ks, r@[j].id@) && call_ensures(
                fuser,
                (&v,),
                r@[j].score,
            ));
        }
    }
    r
}


/// The exact sum of a concatenation is the sum of the exact sums.
pub proof fn lemma_sum_concat(a: Seq<int>, b: Seq<int>)
    ensures
        spec_sum(a + b) == spec_sum(a) + spec_sum(b),
    decreases b.len(),
{
    if b.len() == 0 {
        assert(a + b =~= a);
    } else {
        assert((a + b).drop_last() =~= a + b.drop_last());
        assert((a + b).last() == b.last());
        lemma_sum_concat(a, b.drop_last());
    }
}

/// Fusing a list against itself doubles every group: under every
/// identifier, the concatenation of a list with itself collects the
/// group's payloads twice over, and CombSUM of the doubled group is
/// twice CombSUM of the single group.
pub proof fn lemma_self_fusion_doubles(s: Seq<(Seq<u8>, int)>, id: Seq<u8>)
    ensures
        group_payloads(s + s, id) =~= group_payloads(s, id) + group_payloads(s, id),
        spec_sum(group_payloads(s, id) + group_payloads(s, id)) == 2 * spec_sum(
            group_payloads(s, id),
        ),
{
    let pred = |it: (Seq<u8>, int)| it.0 == id;
    let pay = |it: (Seq<u8>, int)| it.1;
    Seq::filter_distributes_over_add(s, s, pred);
    assert((s + s).filter(pred).map_values(pay) =~= s.filter(pred).map_values(pay) + s.filter(
        pred,
    ).map_values(pay));
    lemma_sum_concat(group_payloads(s, id), group_payloads(s, id));
}



} // verus!
