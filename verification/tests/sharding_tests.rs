use strata::sharding::commands::{commit_key, error_key, rollback_key, MetaCommand, ShardCommand};
use strata::sharding::lists::{
    decode_meta, decode_pairs, decode_table, encode_meta, encode_pairs, encode_table,
};
use strata::sharding::machine::{Export, ShardStateMachine};
use strata::sharding::rebalance::{add_names, weight_of};
use strata::sharding::records::encode_command;
use strata::sharding::routing::{
    LoadReport, RangeRoute, RebalanceOp, RoutingTable, ShardId, ShardRouter,
};
use strata::consensus::messages::StateMachineError;
use strata::storage::lsm::LsmStorage;
use strata::storage::timestamp::HlcTimestamp;

type Machine = ShardStateMachine<fn(usize) -> (usize, usize)>;

fn size(n: usize) -> (usize, usize) {
    (n * 10 + 8, 7)
}

fn store() -> LsmStorage<fn(usize) -> (usize, usize)> {
    let levels = (0..7).map(|_| Vec::new()).collect();
    let sizing: fn(usize) -> (usize, usize) = size;
    LsmStorage::open(b"db".to_vec(), 1, levels, vec![], &[], 1 << 20, sizing)
}

/// A store whose recent writes become a table after a few.
fn small_store() -> LsmStorage<fn(usize) -> (usize, usize)> {
    let levels = (0..7).map(|_| Vec::new()).collect();
    let sizing: fn(usize) -> (usize, usize) = size;
    LsmStorage::open(b"db".to_vec(), 1, levels, vec![], &[], 24, sizing)
}

fn latest() -> HlcTimestamp {
    HlcTimestamp { physical: u64::MAX, logical: u32::MAX }
}

fn run(m: &mut Machine, c: ShardCommand) -> Vec<u8> {
    let mut table = RoutingTable::new();
    m.apply(&mut table, &encode_command(&c)).unwrap()
}

fn put(k: &[u8], v: &[u8], ts: HlcTimestamp) -> ShardCommand {
    ShardCommand::Put { key: k.to_vec(), value: v.to_vec(), ts }
}

fn read(m: &Machine, k: &[u8], ts: HlcTimestamp) -> Option<Vec<u8>> {
    m.storage.as_ref().unwrap().get_at(k, ts)
}

#[test]
fn test_shard_split_preserves_all_keys() {
    let ts = HlcTimestamp { physical: 1, logical: 0 };
    let mut one = ShardStateMachine::open(ShardId(1), store(), &None, &None);
    assert_eq!(run(&mut one, put(b"apple", b"red", ts)), b"red".to_vec());
    run(&mut one, put(b"zebra", b"stripes", ts));
    run(&mut one, ShardCommand::Split { new_shard_id: ShardId(2), split_key: b"m".to_vec() });
    let data = match one.exports.pop() {
        Some(Export::Split { to, data }) => {
            assert_eq!(to, ShardId(2));
            data
        }
        other => panic!("{:?}", other.is_some()),
    };
    let two = ShardStateMachine::open(ShardId(2), store(), &Some(data), &None);
    assert_eq!(read(&one, b"apple", ts), Some(b"red".to_vec()));
    assert_eq!(read(&one, b"zebra", latest()), None);
    assert_eq!(read(&two, b"zebra", ts), Some(b"stripes".to_vec()));
    assert_eq!(read(&two, b"apple", ts), None);
}

#[test]
fn test_shard_merge_preserves_all_keys() {
    let ts = HlcTimestamp { physical: 1, logical: 0 };
    let mut one = ShardStateMachine::open(ShardId(1), store(), &None, &None);
    let mut two = ShardStateMachine::open(ShardId(2), store(), &None, &None);
    run(&mut one, put(b"apple", b"red", ts));
    run(&mut two, put(b"zebra", b"stripes", ts));
    run(&mut two, ShardCommand::Merge { target_shard_id: ShardId(1) });
    let data = match two.exports.pop() {
        Some(Export::Merge { to, data }) => {
            assert_eq!(to, ShardId(1));
            data
        }
        other => panic!("{:?}", other.is_some()),
    };
    let kept = one.storage.take().unwrap();
    let merged = ShardStateMachine::open(ShardId(1), kept, &None, &Some(data));
    assert_eq!(read(&merged, b"apple", ts), Some(b"red".to_vec()));
    assert_eq!(read(&merged, b"zebra", ts), Some(b"stripes".to_vec()));
}

#[test]
fn keys_are_kept_where_what_arrives_becomes_tables() {
    let ts = HlcTimestamp { physical: 1, logical: 0 };
    let key = |i: u32| format!("k{i:03}").into_bytes();
    let mut one = ShardStateMachine::open(ShardId(1), small_store(), &None, &None);
    for i in 0..100 {
        run(&mut one, put(&key(i), format!("v{i}").as_bytes(), ts));
    }
    run(&mut one, ShardCommand::Split { new_shard_id: ShardId(2), split_key: key(40) });
    let sent = one.exports.pop().unwrap().land(&None);
    let mut two = ShardStateMachine::open(ShardId(2), small_store(), &Some(sent), &None);
    for i in 0..100 {
        let value = Some(format!("v{i}").into_bytes());
        let (here, there) = if i < 40 { (value, None) } else { (None, value) };
        assert_eq!(read(&one, &key(i), latest()), here);
        assert_eq!(read(&two, &key(i), latest()), there);
    }
    run(&mut two, ShardCommand::Merge { target_shard_id: ShardId(1) });
    let back = two.exports.pop().unwrap().land(&None);
    let kept = one.storage.take().unwrap();
    let merged = ShardStateMachine::open(ShardId(1), kept, &None, &Some(back));
    for i in 0..40 {
        assert_eq!(read(&merged, &key(i), latest()), Some(format!("v{i}").into_bytes()));
    }
    let apart = ShardStateMachine::open(ShardId(3), small_store(), &None, &Some(encode_pairs(&[])));
    assert_eq!(read(&apart, &key(1), latest()), None);
}

#[test]
fn donors_wait_together() {
    let ts = HlcTimestamp { physical: 1, logical: 0 };
    let mut one = ShardStateMachine::open(ShardId(1), store(), &None, &None);
    let mut two = ShardStateMachine::open(ShardId(2), store(), &None, &None);
    let mut three = ShardStateMachine::open(ShardId(3), store(), &None, &None);
    run(&mut one, put(b"apple", b"red", ts));
    run(&mut two, put(b"lemon", b"yellow", ts));
    run(&mut three, put(b"zebra", b"stripes", ts));
    run(&mut three, ShardCommand::Split { new_shard_id: ShardId(1), split_key: b"z".to_vec() });
    run(&mut three, put(b"mouse", b"grey", ts));
    run(&mut two, ShardCommand::Merge { target_shard_id: ShardId(1) });
    run(&mut three, ShardCommand::Merge { target_shard_id: ShardId(1) });
    let waiting = two.exports.pop().unwrap().land(&None);
    let waiting = three.exports.pop().unwrap().land(&Some(waiting));
    let split = three.exports.pop().unwrap().land(&None);
    let kept = one.storage.take().unwrap();
    let merged = ShardStateMachine::open(ShardId(1), kept, &Some(split), &Some(waiting));
    assert_eq!(read(&merged, b"apple", ts), Some(b"red".to_vec()));
    assert_eq!(read(&merged, b"lemon", ts), Some(b"yellow".to_vec()));
    assert_eq!(read(&merged, b"mouse", ts), Some(b"grey".to_vec()));
    assert_eq!(read(&merged, b"zebra", ts), Some(b"stripes".to_vec()));
}

#[test]
fn test_rebalancer_converges() {
    let mut table = RoutingTable::new();
    table.routes = vec![
        RangeRoute {
            start_key: b"a".to_vec(),
            end_key: b"m".to_vec(),
            shard_id: ShardId(1),
            raft_group: vec![1],
        },
        RangeRoute {
            start_key: b"m".to_vec(),
            end_key: b"s".to_vec(),
            shard_id: ShardId(2),
            raft_group: vec![1],
        },
        RangeRoute {
            start_key: b"s".to_vec(),
            end_key: vec![],
            shard_id: ShardId(3),
            raft_group: vec![2],
        },
    ];
    let current_load = LoadReport {
        shard_loads: vec![(ShardId(1), 10), (ShardId(2), 10), (ShardId(3), 10)],
    };
    let all_nodes = vec![1, 2, 3];
    let ops = table.propose_rebalance(&current_load, &all_nodes, 5);
    assert!(!ops.is_empty(), "Imbalance should trigger rebalance operations");
    if let RebalanceOp::Move { shard, from, to } = &ops[0] {
        assert!(shard.0 == 1 || shard.0 == 2);
        assert_eq!(*from, 1);
        assert_eq!(*to, 3);
    } else {
        panic!("First op should be a Move");
    }
}

#[test]
fn test_routing_table_consistency() {
    let mut table = RoutingTable::new();
    let mut meta = ShardStateMachine::open(ShardId(0), store(), &None, &None);
    let route = RangeRoute {
        start_key: b"a".to_vec(),
        end_key: b"z".to_vec(),
        shard_id: ShardId(1),
        raft_group: vec![1, 2, 3],
    };
    let update_cmd = encode_meta(&MetaCommand::UpdateRoute(route.clone()));
    assert!(meta.apply(&mut table, &update_cmd).is_ok());
    assert_eq!(table.routes.len(), 1);
    assert_eq!(table.routes[0].shard_id, ShardId(1));
    assert_eq!(table.routes[0].raft_group, vec![1, 2, 3]);
    let image = meta.snapshot(&table);
    let mut other = RoutingTable::new();
    meta.restore(&mut other, &image, store()).unwrap();
    assert_eq!(other, table);
    let drop_cmd = encode_meta(&MetaCommand::RemoveRoute(ShardId(1)));
    meta.apply(&mut table, &drop_cmd).unwrap();
    assert!(table.routes.is_empty());
    assert!(meta.storage.is_none());
}

#[test]
fn commands_that_cannot_be_read_are_refused() {
    let mut table = RoutingTable::new();
    let mut meta = ShardStateMachine::open(ShardId(0), store(), &None, &None);
    assert!(matches!(meta.apply(&mut table, &[7]), Err(StateMachineError::ApplyFailed(_))));
    let mut one = ShardStateMachine::open(ShardId(1), store(), &None, &None);
    assert!(matches!(one.apply(&mut table, &[]), Err(StateMachineError::ApplyFailed(_))));
    assert!(matches!(one.restore(&mut table, &[1], store()), Err(StateMachineError::RestoreFailed(_))));
    one.storage = None;
    let c = encode_command(&put(b"k", b"v", latest()));
    match one.apply(&mut table, &c) {
        Err(e) => assert_eq!(e.message(), "Apply failed: Storage not initialized"),
        Ok(_) => panic!("there is no storage"),
    }
}

#[test]
fn a_snapshot_brings_all_keys() {
    let ts = HlcTimestamp { physical: 3, logical: 1 };
    let mut table = RoutingTable::new();
    let mut one = ShardStateMachine::open(ShardId(1), store(), &None, &None);
    run(&mut one, put(b"a", b"1", ts));
    run(&mut one, put(b"b", b"2", ts));
    run(&mut one, ShardCommand::Delete { key: b"a".to_vec(), ts });
    let image = one.snapshot(&table);
    assert_eq!(decode_pairs(&image), Some(vec![(b"b".to_vec(), b"2".to_vec())]));
    let mut two = ShardStateMachine::open(ShardId(1), store(), &None, &None);
    two.restore(&mut table, &image, store()).unwrap();
    assert_eq!(read(&two, b"b", latest()), Some(b"2".to_vec()));
    assert_eq!(read(&two, b"a", latest()), None);
}

fn route(start: &[u8], end: &[u8], shard: u32, group: &[u64]) -> RangeRoute {
    RangeRoute {
        start_key: start.to_vec(),
        end_key: end.to_vec(),
        shard_id: ShardId(shard),
        raft_group: group.to_vec(),
    }
}

#[test]
fn routes_stay_in_order_and_one_for_each_shard() {
    let mut table = RoutingTable::new();
    table.update_route(route(b"m", b"", 2, &[4]));
    table.update_route(route(b"a", b"m", 1, &[1, 2]));
    assert_eq!(table.routes.iter().map(|r| r.shard_id.0).collect::<Vec<u32>>(), vec![1, 2]);
    table.update_route(route(b"z", b"", 1, &[9]));
    assert_eq!(table.routes.iter().map(|r| r.shard_id.0).collect::<Vec<u32>>(), vec![2, 1]);
    assert_eq!(table.raft_group_for_shard(ShardId(1)), vec![9]);
    assert_eq!(table.raft_group_for_shard(ShardId(2)), vec![4]);
    table.remove_route(ShardId(1));
    assert_eq!(table.raft_group_for_shard(ShardId(1)), Vec::<u64>::new());
    assert_eq!(table.raft_group_for_shard(ShardId(2)), vec![4]);
}

#[test]
fn keys_go_to_the_first_route_that_covers_them() {
    let mut table = RoutingTable::new();
    assert_eq!(table.shard_for_key(b"x"), ShardId(0));
    table.update_route(route(b"b", b"m", 1, &[1]));
    table.update_route(route(b"m", b"", 2, &[2]));
    assert_eq!(table.shard_for_key(b"b"), ShardId(1));
    assert_eq!(table.shard_for_key(b"lzz"), ShardId(1));
    assert_eq!(table.shard_for_key(b"m"), ShardId(2));
    assert_eq!(table.shard_for_key(b"zzz"), ShardId(2));
    assert_eq!(table.shard_for_key(b"a"), ShardId(1));
    assert_eq!(table.nodes(), vec![1, 2]);
}

#[test]
fn a_balanced_load_is_left_alone() {
    let mut table = RoutingTable::new();
    table.update_route(route(b"a", b"m", 1, &[1]));
    table.update_route(route(b"m", b"", 2, &[2]));
    let load = LoadReport { shard_loads: vec![(ShardId(1), 5), (ShardId(2), 5)] };
    assert_eq!(table.rebalance_plan(&load), vec![]);
    let mut names = vec![3u64];
    add_names(&mut names, &[1, 3, 2]);
    assert_eq!(names, vec![3, 1, 2]);
    assert_eq!(weight_of(&[(ShardId(1), 8)], ShardId(1)), 8);
    assert_eq!(weight_of(&[(ShardId(1), 8)], ShardId(2)), 1);
}

#[test]
fn tables_and_pairs_are_read_back() {
    let mut table = RoutingTable::new();
    table.update_route(route(b"a", b"m", 1, &[1, 5]));
    assert_eq!(decode_table(&encode_table(&table)), Some(table));
    assert!(decode_table(&[3]).is_none());
    let pairs = vec![(b"k".to_vec(), b"v".to_vec())];
    assert_eq!(decode_pairs(&encode_pairs(&pairs)), Some(pairs));
    assert!(matches!(
        decode_meta(&encode_meta(&MetaCommand::RemoveRoute(ShardId(6)))),
        Some(MetaCommand::RemoveRoute(ShardId(6)))
    ));
}

#[test]
fn a_split_route_moves_the_upper_part() {
    let mut table = RoutingTable::new();
    table.update_route(route(b"", b"m", 1, &[1]));
    table.update_route(route(b"m", b"", 2, &[2]));
    let keys: [&[u8]; 6] = [b"", b"a", b"f", b"fz", b"m", b"z"];
    let before: Vec<ShardId> = keys.iter().map(|k| table.shard_for_key(k)).collect();
    table.update_route(route(b"", b"f", 1, &[1]));
    table.update_route(route(b"f", b"m", 3, &[1]));
    for (k, old) in keys.iter().zip(before) {
        let moved = old == ShardId(1) && *k >= &b"f"[..];
        assert_eq!(table.shard_for_key(k), if moved { ShardId(3) } else { old });
    }
}

#[test]
fn keys_with_a_time_are_ordered_by_it() {
    let times = [(0, 0), (0, 1), (1, 0), (255, 9), (256, 0), (u64::MAX, 0), (u64::MAX, u32::MAX)];
    for make in [commit_key, error_key, rollback_key] {
        let made: Vec<Vec<u8>> = times
            .iter()
            .map(|(physical, logical)| {
                make(b"key", HlcTimestamp { physical: *physical, logical: *logical })
            })
            .collect();
        assert!(made.windows(2).all(|w| w[0] < w[1]));
        assert!(made.iter().all(|k| k.len() == 3 + 13));
    }
}

#[test]
fn a_machine_with_room_is_ready() {
    let ts = HlcTimestamp { physical: 1, logical: 0 };
    let mut one = ShardStateMachine::open(ShardId(1), store(), &None, &None);
    run(&mut one, put(b"zebra", b"stripes", ts));
    let split = ShardCommand::Split { new_shard_id: ShardId(2), split_key: b"m".to_vec() };
    assert!(one.is_ready_for(&encode_command(&split)));
    assert!(one.is_ready_for(&encode_command(&put(b"a", b"b", ts))));
    assert!(one.is_ready_for(b"no command"));
    let meta: Machine = ShardStateMachine::open(ShardId(0), store(), &None, &None);
    assert!(meta.is_ready_for(&[]));
}
