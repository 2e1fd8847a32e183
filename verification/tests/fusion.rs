use vindicator::fuser::comb_max;
use vindicator::fuser::comb_mnz;
use vindicator::fuser::comb_sum;
use vindicator::fuser::fuse_ranked;
use vindicator::fuser::fuse_scored;
use vindicator::fuser::fuse_scored_lists;
use vindicator::fuser::rrf;
use vindicator::ranked_list;
use vindicator::score;
use vindicator::EntryInfo;
use vindicator::RankedEntryInfo;
use vindicator::Score;
use vindicator::SCALE;

fn half() -> Score {
    // 0.5 points, exactly: five hundred thousand millionths.
    Score::from_micros(500_000)
}

#[test]
fn test_comb_max() {
    assert_eq!(comb_max(&vec![score(1), score(40), half(), score(12)]), score(40));
}

#[test]
fn test_comb_sum() {
    assert_eq!(
        comb_sum(&vec![score(1), score(40), half(), score(12)]),
        Score::from_micros(53_500_000)
    );
}

#[test]
fn test_comb_mnz() {
    assert_eq!(comb_mnz(&vec![score(1), score(40), half(), score(12)]), score(214));
}

#[test]
fn test_comb_max_empty_is_zero() {
    assert_eq!(comb_max(&vec![]), score(0));
    assert_eq!(comb_sum(&vec![]), score(0));
}

#[test]
fn test_comb_max_all_negative() {
    assert_eq!(comb_max(&vec![score(-7), score(-2), score(-40)]), score(-2));
}

#[test]
fn test_rrf_exact_reciprocals() {
    // 1/(1+0) + 1/(1+1) + 1/(1+2) = 1 + 1/2 + 1/3, exact in units.
    let r = rrf(&vec![0, 1, 2]);
    let units = 5_822_723_907_000_000i128;
    assert_eq!(r.raw(), units + units / 2 + units / 3);
    assert_eq!(SCALE, units);
}

#[test]
fn test_rrf_empty() {
    assert_eq!(rrf(&vec![]), score(0));
}

fn entry(id: &str, s: Score) -> EntryInfo {
    EntryInfo { id: id.as_bytes().to_vec(), score: s }
}

#[test]
fn test_fuse_scored_single_id_scenario() {
    // Four contributions to one document.
    let entries = vec![
        entry("docA", score(1)),
        entry("docA", score(40)),
        entry("docA", half()),
        entry("docA", score(12)),
    ];
    let max = fuse_scored(&entries, comb_max);
    assert_eq!(max.len(), 1);
    assert_eq!(max[0].score, score(40));

    let sum = fuse_scored(&entries, comb_sum);
    assert_eq!(sum.len(), 1);
    assert_eq!(sum[0].score, Score::from_micros(53_500_000));

    let mnz = fuse_scored(&entries, comb_mnz);
    assert_eq!(mnz.len(), 1);
    assert_eq!(mnz[0].score, score(214));
}

#[test]
fn test_fuse_scored_sorted_and_unique() {
    let entries = vec![
        entry("a", score(1)),
        entry("b", score(5)),
        entry("a", score(2)),
        entry("c", score(4)),
        entry("b", score(-2)),
    ];
    let out = fuse_scored(&entries, comb_sum);
    assert_eq!(out.len(), 3);
    // Each input identifier appears exactly once.
    let mut ids: Vec<Vec<u8>> = out.iter().map(|e| e.id.clone()).collect();
    ids.sort();
    assert_eq!(ids, vec![b"a".to_vec(), b"b".to_vec(), b"c".to_vec()]);
    // Sorted by descending combined score: c: 4, a: 3, b: 3.
    for w in out.windows(2) {
        assert!(w[1].score.le(&w[0].score));
    }
    assert_eq!(out[0].id, b"c".to_vec());
    assert_eq!(out[0].score, score(4));
}

#[test]
fn test_fuse_scored_lists_self_fusion_doubles() {
    // Fusing a list against itself with CombSUM doubles every combined
    // score, because the duplicated contributions are not deduplicated.
    let list = vec![entry("x", score(3)), entry("y", score(5)), entry("x", score(4))];
    let once = fuse_scored(&list, comb_sum);
    let twice = fuse_scored_lists(&list, &list, comb_sum);
    assert_eq!(once.len(), twice.len());
    for e in &twice {
        let single = once.iter().find(|o| o.id == e.id).unwrap();
        assert_eq!(e.score, single.score.scale_by(2));
    }
}

#[test]
fn test_fuse_ranked_rrf() {
    let entries = vec![
        RankedEntryInfo { id: b"p".to_vec(), score: score(1), rank: 0 },
        RankedEntryInfo { id: b"q".to_vec(), score: score(1), rank: 1 },
        RankedEntryInfo { id: b"p".to_vec(), score: score(1), rank: 1 },
    ];
    let out = fuse_ranked(&entries, rrf);
    assert_eq!(out.len(), 2);
    // p: 1/1 + 1/2 = 1.5 points; q: 1/2 = 0.5 points.
    assert_eq!(out[0].id, b"p".to_vec());
    assert_eq!(out[0].score, Score::from_micros(1_500_000));
    assert_eq!(out[1].id, b"q".to_vec());
    assert_eq!(out[1].score, half());
}

#[test]
fn test_ranked_list_assigns_positions() {
    let items = vec![entry("a", score(9)), entry("b", score(8)), entry("c", score(7))];
    let ranked = ranked_list(items);
    assert_eq!(ranked.len(), 3);
    for (i, r) in ranked.iter().enumerate() {
        assert_eq!(r.rank as usize, i);
    }
    assert_eq!(ranked[2].inner.id, b"c".to_vec());
}

#[test]
fn test_fuse_hybrid_custom_combiner() {
    // A caller-supplied reducer: best (lowest) rank wins, score ignored.
    let best_rank = |pairs: &Vec<(u32, Score)>| -> Score {
        let mut best = u32::MAX;
        for (r, _) in pairs {
            if *r < best {
                best = *r;
            }
        }
        score(-(best as i64))
    };
    let entries = vec![
        RankedEntryInfo { id: b"a".to_vec(), score: score(1), rank: 4 },
        RankedEntryInfo { id: b"b".to_vec(), score: score(9), rank: 2 },
        RankedEntryInfo { id: b"a".to_vec(), score: score(1), rank: 1 },
    ];
    let out = vindicator::fuser::fuse_hybrid(&entries, best_rank);
    assert_eq!(out.len(), 2);
    assert_eq!(out[0].id, b"a".to_vec());
    assert_eq!(out[0].score, score(-1));
    assert_eq!(out[1].score, score(-2));
}

#[test]
fn test_comb_sum_saturates_at_limit() {
    // Thirty maximal scores overflow the representable range; the sum
    // clamps at UNITS_LIMIT instead of wrapping.
    let v = vec![score(i64::MAX); 30];
    assert_eq!(comb_sum(&v).raw(), vindicator::UNITS_LIMIT);
}

#[test]
fn test_rrf_inexact_reciprocal_rounds_down() {
    // 1 + 48 = 49 does not divide SCALE, so 1/49 is truncated to the
    // nearest unit below.
    let r = rrf(&vec![48]);
    assert_eq!(r.raw(), vindicator::SCALE / 49);
}
