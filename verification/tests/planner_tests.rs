use rand::Rng;
use strata::bitmap::{filter_bytes, filter_of, read_filter};
use strata::index::error::IndexError;
use strata::index::hnsw::{HnswConfig, HnswIndex};
use strata::planner::{
    ExecutionStrategy, PlannerConfig, QueryPlanner, Share, ShardStats, VectorQuery,
};

#[test]
fn test_planner_picks_bruteforce_below_threshold() {
    let planner = QueryPlanner::new();
    let query = VectorQuery::new(16, 10);

    let stats_small = ShardStats::new(100, 1024 * 100, false);
    let strategy_small = planner.plan(&query, &stats_small);
    assert_eq!(
        strategy_small,
        ExecutionStrategy::BruteForceScan,
        "Planner should select BruteForceScan for small datasets below threshold"
    );

    let stats_boundary = ShardStats::new(500, 1024 * 500, false);
    let strategy_boundary = planner.plan(&query, &stats_boundary);
    assert_eq!(
        strategy_boundary,
        ExecutionStrategy::BruteForceScan,
        "Planner should select BruteForceScan at threshold boundary"
    );

    let stats_large = ShardStats::new(1000, 1024 * 1000, false);
    let strategy_large = planner.plan(&query, &stats_large);
    assert_eq!(
        strategy_large,
        ExecutionStrategy::InMemoryHnsw,
        "Planner should select InMemoryHnsw for datasets above threshold"
    );
}

#[test]
fn test_planner_falls_back_to_disk_index_above_memory_threshold() {
    let config = PlannerConfig {
        memory_threshold_bytes: 10 * 1024 * 1024,
        ..Default::default()
    };
    let planner = QueryPlanner::with_config(config);
    let query = VectorQuery::new(16, 10);

    let stats_in_mem = ShardStats::new(5000, 5 * 1024 * 1024, true);
    let strat_in_mem = planner.plan(&query, &stats_in_mem);
    assert_eq!(
        strat_in_mem,
        ExecutionStrategy::InMemoryHnsw,
        "Planner should remain in-memory if size is under memory threshold"
    );

    let stats_disk = ShardStats::new(50000, 15 * 1024 * 1024, true);
    let strat_disk = planner.plan(&query, &stats_disk);
    assert_eq!(
        strat_disk,
        ExecutionStrategy::OutofCoreVamana,
        "Planner should fall back to disk index above memory threshold"
    );

    let stats_no_disk = ShardStats::new(50000, 15 * 1024 * 1024, false);
    let strat_no_disk = planner.plan(&query, &stats_no_disk);
    assert_eq!(
        strat_no_disk,
        ExecutionStrategy::InMemoryHnsw,
        "Planner should stay in-memory if no disk index exists even if memory exceeds threshold"
    );
}

fn first_numbers(n: u32) -> Vec<u32> {
    (0..n).collect()
}

#[test]
fn few_matches_are_visited_and_many_are_filtered() {
    let config = PlannerConfig {
        bruteforce_threshold: 100,
        memory_threshold_bytes: 100 * 1024 * 1024,
        prefilter_selectivity_threshold: Share { part: 1, whole: 4 },
    };
    let planner = QueryPlanner::with_config(config);
    let stats = ShardStats::new(2000, 5 * 1024 * 1024, false);
    let low = VectorQuery::new(32, 10).with_filter(filter_of(&first_numbers(40)));
    assert_eq!(planner.plan(&low, &stats), ExecutionStrategy::PrefilterGraph);
    let high = VectorQuery::new(32, 10).with_filter(filter_of(&first_numbers(1800)));
    assert_eq!(planner.plan(&high, &stats), ExecutionStrategy::PostfilterGraph);
    let edge = VectorQuery::new(32, 10).with_filter(filter_of(&first_numbers(500)));
    assert_eq!(planner.plan(&edge, &stats), ExecutionStrategy::PostfilterGraph);
}

#[test]
fn selectivity_is_at_most_everything() {
    let stats = ShardStats::new(3, 0, false);
    let all = stats.estimate_selectivity(&filter_of(&first_numbers(9)));
    assert_eq!(all, Share { part: 3, whole: 3 });
    let two = stats.estimate_selectivity(&filter_of(&[7, 7, 8]));
    assert_eq!(two, Share { part: 2, whole: 3 });
    let none = ShardStats::new(0, 0, false).estimate_selectivity(&filter_of(&[1]));
    assert_eq!(none, Share { part: 0, whole: 1 });
}

#[test]
fn statistics_are_refreshed() {
    let mut stats = ShardStats::new(3, 4, true);
    stats.refresh(10, 20);
    assert_eq!(stats, ShardStats::new(10, 20, true));
}

#[test]
fn a_scan_keeps_the_nearest_that_count() {
    let planner = QueryPlanner::default();
    let ids = [5u64, 6, 7, 8, 9];
    let ranks = [50u32, 10, 30, 10, 20];
    let query = VectorQuery::new(1, 3);
    let all = planner.execute_bruteforce(&ids, &|i: u64| ranks[i as usize], &query);
    assert_eq!(all, vec![(6, 10), (8, 10), (9, 20)]);

    let filtered = VectorQuery::new(1, 3).with_filter(filter_of(&[5, 7, 9]));
    let some = planner.execute_bruteforce(&ids, &|i: u64| ranks[i as usize], &filtered);
    assert_eq!(some, vec![(9, 20), (7, 30), (5, 50)]);

    let near = VectorQuery::new(1, 3).with_radius(20);
    let close = planner.execute_bruteforce(&ids, &|i: u64| ranks[i as usize], &near);
    assert_eq!(close, vec![(6, 10), (8, 10), (9, 20)]);
    let nothing = VectorQuery::new(1, 3).with_radius(-1);
    assert!(planner.execute_bruteforce(&ids, &|i: u64| ranks[i as usize], &nothing).is_empty());
}

fn line(n: u64) -> HnswIndex {
    let mut index = HnswIndex::new(1, HnswConfig::new(4, 16, 16));
    for id in 0..n {
        index
            .insert(id, 1, 0, &|a: u64, b: u64| a.abs_diff(b) as u32)
            .expect("insert");
    }
    index
}

#[test]
fn what_does_not_count_is_filtered_afterwards() {
    let planner = QueryPlanner::new();
    let index = line(20);
    let stats = ShardStats::new(20, 0, false);
    let dist = |id: u64| id.abs_diff(7) as u32;
    let query = VectorQuery::new(1, 2).with_filter(filter_of(&[2, 9, 12]));
    let found = planner
        .execute_postfilter_hnsw(&index, &dist, &query, &stats, 20)
        .unwrap();
    assert_eq!(found, vec![(9, 2), (2, 5)]);
    let wrong = VectorQuery::new(3, 2);
    let refused = planner.execute_postfilter_hnsw(&index, &dist, &wrong, &stats, 20);
    assert_eq!(refused.unwrap_err().message(), "Dimension mismatch: expected 1, got 3");
}

#[test]
fn only_what_counts_is_visited() {
    let planner = QueryPlanner::new();
    let index = line(10);
    let dist = |id: u64| id.abs_diff(4) as u32;
    let visit = |f: &roaring::RoaringBitmap, k: usize| {
        Ok(f.iter().take(k).map(|id| (id as u64, dist(id as u64))).collect())
    };
    let query = VectorQuery::new(1, 3).with_filter(filter_of(&[1, 4])).with_radius(2);
    let found = planner.execute_prefilter_hnsw(&index, &dist, &visit, &query).unwrap();
    assert_eq!(found, vec![(4, 0)]);
    let open = VectorQuery::new(1, 1);
    let nearest = planner.execute_prefilter_hnsw(&index, &dist, &visit, &open).unwrap();
    assert_eq!(nearest, vec![(4, 0)]);
}

#[test]
fn what_is_found_on_disk_is_filtered() {
    let planner = QueryPlanner::new();
    let query = VectorQuery::new(1, 3).with_filter(filter_of(&[1, 3])).with_radius(15);
    let kept = planner.execute_vamana_disk(vec![(1, 10), (2, 11), (3, 20)], &query);
    assert_eq!(kept, vec![(1, 10)]);
}

#[test]
fn a_filter_is_sent_and_read() {
    let bytes = filter_bytes(&[3, 70_000, 5]).unwrap();
    let read = read_filter(&bytes).unwrap();
    assert_eq!(read.iter().collect::<Vec<u32>>(), vec![3, 5, 70_000]);
    assert!(read_filter(&[]).is_none());
    assert!(read_filter(&[1, 2, 3, 4]).is_none());
}

#[test]
fn test_planner_picks_prefilter_vs_postfilter_by_selectivity() {
    let dim = 32;
    let n = 2000u64;
    let k = 10;
    let mut rng = rand::thread_rng();
    let dataset: Vec<Vec<f32>> =
        (0..n).map(|_| (0..dim).map(|_| rng.gen::<f32>()).collect()).collect();
    let l2 = |a: &[f32], b: &[f32]| -> u32 {
        a.iter().zip(b.iter()).map(|(x, y)| (x - y) * (x - y)).sum::<f32>().sqrt().to_bits()
    };
    let pair = |a: u64, b: u64| l2(&dataset[a as usize], &dataset[b as usize]);
    let mut hnsw = HnswIndex::new(dim, HnswConfig::new(16, 100, 50));
    for id in 0..n {
        let u: f64 = rng.gen::<f64>().max(f64::MIN_POSITIVE);
        let level = (-u.ln() / 16f64.ln()).floor() as usize;
        hnsw.insert(id, dim, level, &pair).unwrap();
    }

    let planner = QueryPlanner::with_config(PlannerConfig {
        bruteforce_threshold: 100,
        memory_threshold_bytes: 100 * 1024 * 1024,
        prefilter_selectivity_threshold: Share { part: 1, whole: 4 },
    });
    let stats = ShardStats::new(n as usize, 5 * 1024 * 1024, false);
    let low: Vec<u32> = first_numbers(40);
    let high: Vec<u32> = first_numbers(1800);

    let low_sel_query = VectorQuery::new(dim, k).with_filter(filter_of(&low));
    assert_eq!(
        planner.plan(&low_sel_query, &stats),
        ExecutionStrategy::PrefilterGraph,
        "Planner should pick PrefilterGraph for low selectivity (2%)"
    );
    for _ in 0..20 {
        let q: Vec<f32> = (0..dim).map(|_| rng.gen::<f32>()).collect();
        let dist = |id: u64| l2(&q, &dataset[id as usize]);
        let visit = |filter: &roaring::RoaringBitmap, k: usize| -> Result<Vec<(u64, u32)>, IndexError> {
            let mut hits: Vec<(u64, u32)> =
                filter.iter().map(|id| (id as u64, dist(id as u64))).collect();
            hits.sort_by_key(|h| h.1);
            hits.truncate(k);
            Ok(hits)
        };
        let query = VectorQuery::new(dim, k).with_filter(filter_of(&low));
        let pre_res = planner.execute_prefilter_hnsw(&hnsw, &dist, &visit, &query).unwrap();
        let post_res = planner.execute_postfilter_hnsw(&hnsw, &dist, &query, &stats, 750).unwrap();
        assert!(!pre_res.is_empty(), "Prefilter should return non-empty result");
        assert!(post_res.iter().all(|(id, _)| *id < 40));
    }

    let high_sel_query = VectorQuery::new(dim, k).with_filter(filter_of(&high));
    assert_eq!(
        planner.plan(&high_sel_query, &stats),
        ExecutionStrategy::PostfilterGraph,
        "Planner should pick PostfilterGraph for high selectivity (90%)"
    );
}

#[test]
fn test_planner_benchmark_report_grid() {
    let dim = 32;
    let k = 10;
    let mut rng = rand::thread_rng();
    let planner = QueryPlanner::new();

    let sizes = vec![100usize, 1000usize, 5000usize];
    let selectivities = vec![0.01, 0.10, 0.50, 0.90];
    let l2 = |a: &[f32], b: &[f32]| -> u32 {
        a.iter().zip(b.iter()).map(|(x, y)| (x - y) * (x - y)).sum::<f32>().sqrt().to_bits()
    };

    for &n in &sizes {
        let dataset: Vec<Vec<f32>> =
            (0..n).map(|_| (0..dim).map(|_| rng.gen::<f32>()).collect()).collect();
        let ids: Vec<u64> = (0..n as u64).collect();
        let pair = |a: u64, b: u64| l2(&dataset[a as usize], &dataset[b as usize]);
        let mut hnsw = HnswIndex::new(dim, HnswConfig::new(16, 100, 50));
        for id in &ids {
            let u: f64 = rng.gen::<f64>().max(f64::MIN_POSITIVE);
            let level = (-u.ln() / 16f64.ln()).floor() as usize;
            hnsw.insert(*id, dim, level, &pair).unwrap();
        }
        let stats = ShardStats::new(n, n * dim * 4, false);

        for &sel in &selectivities {
            let count = ((n as f64) * sel).round() as u32;
            let q_vec: Vec<f32> = (0..dim).map(|_| rng.gen::<f32>()).collect();
            let query = VectorQuery::new(dim, k).with_filter(filter_of(&first_numbers(count)));
            let chosen_strategy = planner.plan(&query, &stats);
            let expected = if n <= 500 {
                ExecutionStrategy::BruteForceScan
            } else if sel < 0.25 {
                ExecutionStrategy::PrefilterGraph
            } else {
                ExecutionStrategy::PostfilterGraph
            };
            assert_eq!(chosen_strategy, expected, "n = {n}, selectivity = {sel}");

            let dist = |id: u64| l2(&q_vec, &dataset[id as usize]);
            let visit = |filter: &roaring::RoaringBitmap, k: usize| -> Result<Vec<(u64, u32)>, IndexError> {
                let mut hits: Vec<(u64, u32)> =
                    filter.iter().map(|id| (id as u64, dist(id as u64))).collect();
                hits.sort_by_key(|h| h.1);
                hits.truncate(k);
                Ok(hits)
            };
            let wanted = ((k as f64 / sel.max(0.01)) as usize).max(k).min(n);
            let iterations = 10;
            for _ in 0..iterations {
                let brute = planner.execute_bruteforce(&ids, &dist, &query);
                let pre = planner.execute_prefilter_hnsw(&hnsw, &dist, &visit, &query).unwrap();
                let post = planner.execute_postfilter_hnsw(&hnsw, &dist, &query, &stats, wanted).unwrap();
                assert_eq!(brute.len(), k.min(count as usize));
                assert_eq!(pre.iter().map(|h| h.1).collect::<Vec<u32>>(), brute.iter().map(|h| h.1).collect::<Vec<u32>>());
                assert!(post.len() <= k && post.iter().all(|(id, _)| *id < count as u64));
            }
        }
    }
}
