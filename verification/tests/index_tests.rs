use rand::Rng;
use std::collections::HashMap;
use std::collections::HashSet;
use strata::index::disk::{
    assemble, file_order, load_pq_codes, read_graph_header, read_neighbours, write_graph_file,
    write_pq_codes, write_vecs_file, GraphHeader, VamanaDiskIndex, MAGIC, NO_NODE,
};
use strata::index::error::IndexError;
use strata::index::hnsw::{keep_within, HnswConfig, HnswIndex};
use strata::index::learned::{HnswWithLearnedEntry, LearnedEntryPoint};
use strata::index::order::sort_pairs;
use strata::index::vamana::{build_vamana_graph, robust_prune, VamanaConfig, VamanaGraph};

fn l2(a: &[f32], b: &[f32]) -> f32 {
    let mut sums = [0f32; 16];
    let (x, y) = (a.chunks_exact(16), b.chunks_exact(16));
    let rest: f32 =
        x.remainder().iter().zip(y.remainder()).map(|(u, v)| (u - v) * (u - v)).sum();
    for (u, v) in x.zip(y) {
        for i in 0..16 {
            let d = u[i] - v[i];
            sums[i] += d * d;
        }
    }
    (sums.iter().sum::<f32>() + rest).sqrt()
}

fn rank(d: f32) -> u32 {
    d.to_bits()
}

fn level(m: usize) -> usize {
    let u: f64 = rand::thread_rng().gen::<f64>().max(f64::MIN_POSITIVE);
    (-u.ln() * (1.0 / (m as f64).ln())).floor() as usize
}

fn random_vectors(n: usize, dim: usize) -> Vec<Vec<f32>> {
    let mut rng = rand::thread_rng();
    (0..n).map(|_| (0..dim).map(|_| rng.gen::<f32>()).collect()).collect()
}

fn brute_force_knn(dataset: &[Vec<f32>], query: &[f32], k: usize) -> Vec<u64> {
    let mut dists: Vec<(f32, u64)> =
        dataset.iter().enumerate().map(|(i, v)| (l2(query, v), i as u64)).collect();
    dists.sort_by(|a, b| a.0.total_cmp(&b.0));
    dists.into_iter().take(k).map(|(_, id)| id).collect()
}

fn filled(vectors: &[Vec<f32>], dim: usize, config: HnswConfig) -> HnswIndex {
    let m = config.m;
    let mut index = HnswIndex::new(dim, config);
    let pair = |a: u64, b: u64| rank(l2(&vectors[a as usize], &vectors[b as usize]));
    for id in 0..vectors.len() as u64 {
        index.insert(id, dim, level(m), &pair).expect("insert failed");
    }
    index
}

#[test]
fn test_hnsw_insert_delete() {
    let dim = 64;
    let n = 1_000usize;
    let vectors = random_vectors(n, dim);
    let mut index = filled(&vectors, dim, HnswConfig::new(8, 50, 50));

    for id in 500..n as u64 {
        index.delete(id).expect("delete failed");
    }

    for query in random_vectors(20, dim) {
        let dist = |id: u64| rank(l2(&query, &vectors[id as usize]));
        let results = index.search_knn(dim, &dist, 10).expect("search_knn failed");
        for (id, _) in results {
            assert!(id < 500, "Deleted ID {id} appeared in search results");
        }
    }
}

#[test]
fn a_large_graph_finds_nine_in_ten() {
    let dim = 128;
    let k = 10;
    let vectors = random_vectors(5_000, dim);
    let index = filled(&vectors, dim, HnswConfig::new(16, 200, 100));

    let num_queries = 100;
    let mut total_recall = 0.0f32;
    for query in random_vectors(num_queries, dim) {
        let dist = |id: u64| rank(l2(&query, &vectors[id as usize]));
        let gt: HashSet<u64> = brute_force_knn(&vectors, &query, k).into_iter().collect();
        let results = index.search_knn(dim, &dist, k).unwrap();
        let hits = results.iter().filter(|(id, _)| gt.contains(id)).count();
        total_recall += hits as f32 / k as f32;
    }
    let mean_recall = total_recall / num_queries as f32;
    assert!(mean_recall >= 0.90, "found only {mean_recall:.4}");
}

#[test]
fn test_hnsw_stats() {
    let dim = 16;
    let vectors = random_vectors(50, dim);
    let index = filled(&vectors, dim, HnswConfig::new(4, 20, 20));
    let stats = index.stats();
    assert_eq!(stats.num_vectors, 50);
    assert_eq!(stats.index_type, "hnsw");
    assert!(stats.memory_bytes > 0);
}

#[test]
fn a_small_graph_finds_what_a_scan_finds() {
    let dim = 16;
    let k = 10;
    let vectors = random_vectors(600, dim);
    let index = filled(&vectors, dim, HnswConfig::new(16, 200, 100));
    let mut found = 0usize;
    for query in random_vectors(20, dim) {
        let dist = |id: u64| rank(l2(&query, &vectors[id as usize]));
        let got: HashSet<u64> =
            index.search_knn(dim, &dist, k).unwrap().into_iter().map(|(id, _)| id).collect();
        let want: HashSet<u64> = brute_force_knn(&vectors, &query, k).into_iter().collect();
        found += got.intersection(&want).count();
    }
    assert!(found >= 180, "found only {found} of 200");
}

fn line(n: u64) -> HnswIndex {
    let mut index = HnswIndex::new(1, HnswConfig::new(4, 50, 50));
    for id in 0..n {
        index.insert(id, 1, 0, &|a: u64, b: u64| a.abs_diff(b) as u32).unwrap();
    }
    index
}

#[test]
fn the_nearest_come_first() {
    let index = line(30);
    let found = index.search_knn(1, &|id: u64| id.abs_diff(12) as u32, 3).unwrap();
    assert_eq!(found[0], (12, 0));
    assert_eq!(found[1].1, 1);
    assert_eq!(found[2].1, 1);
    assert_eq!(index.len(), 30);
    assert!(!index.is_empty());
    assert!(index.is_live(29));
    assert!(!index.is_live(30));
}

#[test]
fn vectors_of_another_length_are_refused() {
    let mut index = line(3);
    let refused = index.insert(9, 2, 0, &|_: u64, _: u64| 0).unwrap_err();
    assert!(matches!(refused, IndexError::DimensionMismatch { expected: 1, actual: 2 }));
    assert_eq!(refused.message(), "Dimension mismatch: expected 1, got 2");
    assert!(index.check_dim(1).is_ok());
    assert!(index.check_dim(2).is_err());
    assert!(index.search_knn(2, &|_: u64| 0, 1).is_err());
}

#[test]
fn an_empty_graph_finds_nothing() {
    let index = HnswIndex::new(4, HnswConfig::default());
    assert_eq!(index.search_knn(4, &|_: u64| 0, 5).unwrap(), vec![]);
    assert!(index.is_empty());
    assert_eq!(index.stats().num_vectors, 0);
}

#[test]
fn what_was_deleted_is_not_found() {
    let mut index = line(10);
    index.delete(4).unwrap();
    index.delete(4).unwrap();
    assert!(matches!(index.delete(77), Err(IndexError::NotFound(77))));
    assert_eq!(IndexError::NotFound(77).message(), "ID 77 not found in index");
    let found = index.search_knn(1, &|id: u64| id.abs_diff(4) as u32, 10).unwrap();
    assert!(found.iter().all(|(id, _)| *id != 4));
    assert_eq!(index.stats().num_vectors, 9);
}

#[test]
fn a_range_holds_what_is_near_enough() {
    let index = line(20);
    let near = index.search_range(1, &|id: u64| id.abs_diff(10) as u32, 2).unwrap();
    let mut ids: Vec<u64> = near.iter().map(|(id, _)| *id).collect();
    ids.sort();
    assert_eq!(ids, vec![8, 9, 10, 11, 12]);
    assert_eq!(keep_within(&[(1, 5), (2, 6), (3, 7)], 6), vec![(1, 5), (2, 6)]);
}

#[test]
fn a_search_may_start_elsewhere() {
    let index = line(30);
    let found = index
        .search_knn_with_entry(1, &|id: u64| id.abs_diff(12) as u32, 1, 29, 0)
        .unwrap();
    assert_eq!(found, vec![(12, 0)]);
}

#[test]
fn neighbours_are_chosen_apart() {
    let index = line(30);
    let pair = |a: u64, b: u64| a.abs_diff(b) as u32;
    let picked = index.select_neighbours_heuristic(10, &[11, 12, 9, 8], 2, &pair);
    assert_eq!(picked.len(), 2);
    assert!(picked.contains(&11) && picked.contains(&9));
}

#[test]
fn test_learned_entry_failure_modes() {
    let dim = 32;
    let proj = 8;
    let mut hnsw = HnswWithLearnedEntry::new(dim, HnswConfig::new(4, 20, 20));
    let mut rng = rand::thread_rng();
    let scale = 1.0 / (proj as f32).sqrt();
    let matrix: Vec<f32> = (0..dim * proj).map(|_| (rng.gen::<f32>() * 2.0 - 1.0) * scale).collect();
    let project = |v: &[f32]| -> Vec<f32> {
        (0..proj)
            .map(|j| v.iter().enumerate().map(|(i, x)| x * matrix[i * proj + j]).sum::<f32>())
            .collect()
    };
    let vectors = random_vectors(100, dim);
    let shorts: Vec<Vec<f32>> = vectors.iter().map(|v| project(v)).collect();
    let pair = |a: u64, b: u64| rank(l2(&vectors[a as usize], &vectors[b as usize]));
    for id in 0..100u64 {
        hnsw.insert(id, dim, level(4), &pair).expect("insert");
    }

    let out_of_distribution: Vec<f32> = (0..dim).map(|_| 100.0f32).collect();
    let short_query = project(&out_of_distribution);
    let short = |i: u64| rank(l2(&short_query, &shorts[i as usize]));
    let dist = |id: u64| rank(l2(&out_of_distribution, &vectors[id as usize]));
    let threshold = rank(0.01);
    let _pred_result = hnsw.entry.predict(&short, threshold);
    let res = hnsw.search_knn(dim, &dist, &short, threshold, 5);
    assert!(res.is_ok(), "search_knn with extreme query should not error");
}

#[test]
fn a_prediction_is_the_nearest_that_is_near_enough() {
    let mut entry = LearnedEntryPoint::new();
    assert_eq!(entry.predict(&|_: u64| 0, 9), None);
    entry.add_training_point(40, 1);
    entry.add_training_point(50, 0);
    entry.add_training_point(60, 2);
    assert_eq!(entry.training_size(), 3);
    let short = |i: u64| [8u32, 3, 3][i as usize];
    assert_eq!(entry.predict(&short, 3), Some((50, 0)));
    assert_eq!(entry.predict(&short, 2), None);
}

#[test]
fn learned_entries_follow_the_graph() {
    let mut index = HnswWithLearnedEntry::new(1, HnswConfig::new(4, 50, 50));
    let pair = |a: u64, b: u64| a.abs_diff(b) as u32;
    for id in 0..20u64 {
        index.insert(id, 1, 0, &pair).unwrap();
    }
    let dist = |id: u64| id.abs_diff(7) as u32;
    assert_eq!(index.search_knn(1, &dist, &dist, 5, 1).unwrap(), vec![(7, 0)]);
    index.delete(7).unwrap();
    let found = index.search_knn(1, &dist, &dist, 5, 1).unwrap();
    assert_eq!(found[0].1, 1);
    assert!(index.search_range(1, &dist, 1).unwrap().iter().all(|(id, _)| *id == 6 || *id == 8));
    let stats = index.stats(100);
    assert_eq!(stats.index_type, "hnsw-learned-entry");
    assert_eq!(stats.memory_bytes, index.inner.stats().memory_bytes + 100);
}

#[test]
fn test_vamana_robust_prune() {
    let p = vec![0.0f32, 0.0, 0.0];
    let mut id_to_vec: HashMap<u64, Vec<f32>> = HashMap::new();
    id_to_vec.insert(1, vec![1.0, 0.0, 0.0]);
    id_to_vec.insert(2, vec![1.1, 0.0, 0.0]);
    id_to_vec.insert(3, vec![0.0, 1.0, 0.0]);
    id_to_vec.insert(4, vec![0.0, 0.0, 1.0]);
    let alpha = 1.2f32;
    let dist = |id: u64| rank(l2(&p, &id_to_vec[&id]));
    let covers =
        |_: u64, star: u64, v: u64| alpha * l2(&id_to_vec[&star], &id_to_vec[&v]) <= l2(&p, &id_to_vec[&v]);

    let result = robust_prune(0, &[1, 2, 3, 4], &dist, &covers, 3);

    assert!(result.contains(&1), "Node 1 (nearest) must be in result, got {:?}", result);
    assert!(!result.contains(&2), "Node 2 (dominated by 1) should be pruned, got {:?}", result);
    assert!(
        result.contains(&3) || result.contains(&4),
        "At least one orthogonal neighbour should survive, got {:?}",
        result
    );
    assert!(result.len() <= 3, "Result exceeds R=3: {:?}", result);
}

fn small_config() -> VamanaConfig {
    VamanaConfig { r: 4, l_build: 20, pq_subspaces: 1, beam_width: 2, rerank_factor: 3 }
}

fn small_graph(n: u64) -> VamanaGraph {
    let ids: Vec<u64> = (0..n).collect();
    let pair = |a: u64, b: u64| a.abs_diff(b) as u32;
    let covers = |p: u64, x: u64, v: u64| x.abs_diff(v) <= p.abs_diff(v);
    let wide = |p: u64, x: u64, v: u64| 12 * x.abs_diff(v) <= 10 * p.abs_diff(v);
    build_vamana_graph(&ids, n / 2, &small_config(), &pair, &covers, &wide)
}

#[test]
fn a_flat_graph_leads_to_the_nearest() {
    let graph = small_graph(40);
    for goal in [0u64, 5, 20, 39] {
        let found = graph.greedy_search_graph(&|id: u64| id.abs_diff(goal) as u32, 10);
        assert_eq!(found[0], goal);
    }
    for id in 0..40u64 {
        assert!(graph.neighbours(id).len() <= 4);
    }
}

fn graph_of(edges: &[(u64, &[u64])], medoid_id: u64) -> VamanaGraph {
    VamanaGraph {
        adj: edges.iter().map(|(id, nbs)| (*id, nbs.to_vec())).collect(),
        known: edges.iter().map(|(id, _)| (*id, 0)).collect(),
        medoid_id,
    }
}

#[test]
fn a_search_follows_all_edges_of_a_node_and_takes_the_nearest() {
    let ranks = [5u32, 1, 3];
    let dist = |id: u64| ranks[id as usize];
    for edges in [[1u64, 2], [2, 1]] {
        let graph = graph_of(&[(0, &edges[..]), (1, &[]), (2, &[])], 0);
        assert_eq!(graph.greedy_search_graph(&dist, 1), vec![1]);
        assert_eq!(graph.greedy_search_graph(&dist, 2), vec![1, 2]);
        assert_eq!(graph.greedy_search_graph(&dist, 3), vec![1, 2, 0]);
    }
}

#[test]
fn a_search_stops_at_the_first_node_that_is_farther() {
    // The way to the nearest node leads over one that is far.
    let graph = graph_of(&[(0, &[1, 2]), (1, &[]), (2, &[3]), (3, &[])], 0);
    let ranks = [5u32, 4, 9, 0];
    let dist = |id: u64| ranks[id as usize];
    assert_eq!(graph.greedy_search_graph(&dist, 1), vec![1]);
    assert_eq!(graph.greedy_search_graph(&dist, 2), vec![1, 0]);
    assert_eq!(graph.greedy_search_graph(&dist, 3), vec![3, 1, 0]);
    assert_eq!(graph.greedy_search_graph(&dist, 0), Vec::<u64>::new());
}

#[test]
fn nodes_that_are_as_far_come_by_their_numbers() {
    let graph = graph_of(&[(9, &[4, 2, 7]), (2, &[]), (4, &[]), (7, &[])], 9);
    assert_eq!(graph.greedy_search_graph(&|_: u64| 1, 4), vec![2, 4, 7, 9]);
    assert_eq!(graph.greedy_search_graph(&|_: u64| 1, 2), vec![4, 9]);
}

#[test]
fn a_wide_search_finds_all_that_it_can_come_to() {
    let index = line(30);
    let found = index.search_layer(&|id: u64| id.abs_diff(12) as u32, &[29], 30, 0);
    let all: HashSet<u64> = found.iter().copied().collect();
    assert_eq!(all, (0..30u64).collect());
    assert_eq!(&found[..3], &[12, 11, 13]);
}

#[test]
fn nodes_on_disk_are_expanded_together_in_the_order_of_their_places() {
    let graph =
        graph_of(&[(0, &[3, 1]), (1, &[4]), (3, &[2]), (2, &[]), (4, &[])], 0);
    let ids = vec![0u64, 1, 2, 3, 4];
    let file = write_graph_file(&graph, &ids, 1, 4);
    let codes: Vec<Vec<u8>> = ids.iter().map(|id| vec![*id as u8]).collect();
    let ranks = [9u32, 6, 1, 5, 7];
    let dist = |id: u64| ranks[id as usize];
    let asked = std::cell::RefCell::new(Vec::new());
    let read = |at: u64, n: usize| -> Result<Vec<u8>, String> {
        asked.borrow_mut().push(at);
        Ok(file[at as usize..at as usize + n].to_vec())
    };
    let mut index = assemble(small_config(), &ids, &codes, 0, 1);
    let size = 12 + 8 * index.max_degree as u64;
    let place = |p: u64| 28 + p * size;
    assert_eq!(index.beam_search_coarse(&read, &dist, 2).unwrap(), vec![2, 3]);
    assert_eq!(*asked.borrow(), vec![place(0), place(1), place(3), place(2)]);
    asked.borrow_mut().clear();
    index.config.beam_width = 1;
    assert_eq!(index.beam_search_coarse(&read, &dist, 2).unwrap(), vec![2, 3]);
    assert_eq!(*asked.borrow(), vec![place(0), place(3), place(2)]);
}

#[test]
fn defaults_are_as_documented() {
    let v = VamanaConfig::default();
    assert_eq!((v.r, v.l_build, v.pq_subspaces, v.beam_width, v.rerank_factor), (32, 75, 8, 4, 3));
    let h = HnswConfig::default();
    assert_eq!((h.m, h.m0, h.ef_construction, h.ef_search), (16, 32, 200, 100));
}

#[test]
fn graph_files_are_read_back() {
    let graph = small_graph(10);
    let ids = file_order((0..10u64).collect());
    let file = write_graph_file(&graph, &ids, 3, 4);
    assert_eq!(&file[0..4], &MAGIC.to_le_bytes());
    let header = read_graph_header(&file).unwrap();
    assert_eq!(header.num_points, 10);
    assert_eq!(header.dims, 3);
    assert_eq!(header.max_degree, 4);
    assert_eq!(header.medoid_id, 5);
    let record = file.len() - (file.len() - header_len(&file, 10)) / 10 * 10;
    let size = (file.len() - record) / 10;
    for (i, id) in ids.iter().enumerate() {
        let at = record + i * size;
        assert_eq!(read_neighbours(&file[at..at + size], 4), graph.neighbours(*id));
    }
}

fn header_len(file: &[u8], n: usize) -> usize {
    let per = 8 + 4 + 4 * 8;
    file.len() - n * per
}

#[test]
fn damaged_graph_files_are_refused() {
    assert!(read_graph_header(&[]).is_err());
    let mut file = write_graph_file(&small_graph(4), &[0, 1, 2, 3], 3, 4);
    file[0] ^= 1;
    assert!(read_graph_header(&file).is_err());
}

#[test]
fn codes_are_read_back() {
    let file = write_pq_codes(&[7, 9], &[vec![1, 2], vec![3, 4]], 2);
    let (codes, places) = load_pq_codes(&file, 2).unwrap();
    assert_eq!(codes, vec![1, 2, 3, 4]);
    assert_eq!(places[&7], 0);
    assert_eq!(places[&9], 1);
    assert!(load_pq_codes(&file[..5], 2).is_err());
}

#[test]
fn pairs_are_put_in_order() {
    assert_eq!(sort_pairs(vec![(1, 30), (2, 10), (3, 20)]), vec![(2, 10), (3, 20), (1, 30)]);
    assert_eq!(NO_NODE, u64::MAX);
}

#[test]
fn an_index_on_disk_finds_what_is_near() {
    let graph = small_graph(40);
    let ids = file_order((0..40u64).collect());
    let graph_file = write_graph_file(&graph, &ids, 1, 4);
    let vectors: Vec<Vec<u8>> = ids.iter().map(|id| (*id as f32).to_le_bytes().to_vec()).collect();
    let vecs_file = write_vecs_file(&ids, &vectors);
    let codes: Vec<Vec<u8>> = ids.iter().map(|id| vec![*id as u8]).collect();
    let code_file = write_pq_codes(&ids, &codes, 1);

    let built = assemble(small_config(), &ids, &codes, graph.medoid_id, 1);
    let header = read_graph_header(&graph_file).unwrap();
    let opened = VamanaDiskIndex::open(small_config(), header, 1, &code_file).unwrap();
    assert_eq!(built.pq_codes, opened.pq_codes);
    assert_eq!(built.node_pos, opened.node_pos);
    assert!(opened.is_addressable());
    assert_eq!(opened.code(17), Some(vec![17]));
    assert_eq!(opened.code(99), None);

    let part = |file: &[u8], at: u64, n: usize| -> Result<Vec<u8>, String> {
        let from = at as usize;
        file.get(from..from + n).map(|b| b.to_vec()).ok_or("short read".to_string())
    };
    let graph_read = |at: u64, n: usize| part(&graph_file, at, n);
    let vecs_read = |at: u64, n: usize| part(&vecs_file, at, n);
    let dist = |id: u64| id.abs_diff(23) as u32;
    let exact = |b: Vec<u8>| rank((f32::from_le_bytes([b[0], b[1], b[2], b[3]]) - 23.0).abs());
    let found = opened.search_knn(1, &graph_read, &vecs_read, &dist, &exact, 3).unwrap();
    assert_eq!(found[0], (23, 0));
    assert_eq!(found.len(), 3);
    assert_eq!(found[1].1, rank(1.0));
    assert!(opened.search_knn(2, &graph_read, &vecs_read, &dist, &exact, 3).is_err());
    let broken = |_: u64, _: usize| -> Result<Vec<u8>, String> { Err("gone".to_string()) };
    assert!(matches!(
        opened.search_knn(1, &broken, &vecs_read, &dist, &exact, 3),
        Err(IndexError::Io(m)) if m == "gone"
    ));
    assert!(matches!(
        opened.search_knn(1, &graph_read, &broken, &dist, &exact, 3),
        Err(IndexError::Io(m)) if m == "gone"
    ));
    assert!(matches!(
        opened.search_knn(1, &broken, &vecs_read, &dist, &exact, 0),
        Err(IndexError::Io(m)) if m == "gone"
    ));
    assert_eq!(opened.search_knn(1, &graph_read, &vecs_read, &dist, &exact, 0).unwrap(), vec![]);
    assert_eq!(opened.beam_search_coarse(&graph_read, &dist, 0).unwrap(), vec![23]);
    assert_eq!(opened.rerank(&broken, &exact, &[99], 3).unwrap(), vec![]);
    let mut elsewhere = assemble(small_config(), &ids, &codes, NO_NODE, 1);
    assert_eq!(elsewhere.beam_search_coarse(&broken, &dist, 3).unwrap(), vec![]);
    elsewhere = assemble(small_config(), &ids, &codes, graph.medoid_id, 1);
    elsewhere.config.beam_width = 0;
    let alone = elsewhere.beam_search_coarse(&broken, &dist, 3).unwrap();
    assert_eq!(alone, vec![graph.medoid_id]);
    assert!(opened.insert().is_err());
    assert!(opened.delete().is_err());
    assert_eq!(opened.stats(10).num_vectors, 40);
    assert_eq!(opened.stats(10).memory_bytes, opened.in_memory_bytes(10));
}

#[test]
fn a_header_says_how_large_the_index_is() {
    let header = GraphHeader { num_points: 0, dims: 1, max_degree: 4, medoid_id: NO_NODE };
    let empty = write_pq_codes(&[], &[], 1);
    let index = VamanaDiskIndex::open(small_config(), header, 1, &empty).unwrap();
    assert_eq!(index.stats(0).num_vectors, 0);
}

#[test]
fn a_layer_search_is_no_wider_than_asked() {
    let mut index = line(30);
    let near = |id: u64| id.abs_diff(12) as u32;
    assert_eq!(index.search_layer(&near, &[0, 29, 5], 2, 0).len(), 2);
    assert_eq!(index.search_layer(&near, &[0, 0, 0], 1, 0), vec![12]);
    assert_eq!(index.search_layer(&near, &[12, 13, 11, 14], 3, 5), vec![12, 11, 13]);
    assert_eq!(index.search_layer(&near, &[3], 0, 0), Vec::<u64>::new());
    assert_eq!(index.search_layer(&near, &[], 4, 0), Vec::<u64>::new());
    for id in 0..29 {
        index.delete(id).unwrap();
    }
    assert_eq!(index.len(), 1);
    assert!(!index.is_empty());
    index.delete(29).unwrap();
    assert!(index.is_empty());
}
