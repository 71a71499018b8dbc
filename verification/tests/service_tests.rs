use strata::bitmap::{filter_bytes, filter_of, read_filter};
use strata::consensus::messages::TransportError;
use strata::runtime::SimState;
use strata::service::{
    list_pairs, make_vector_key, mutation_of, mutation_parts, plan_delete, plan_put,
    range_lookups, read_time, read_vector_key, refresh_failed, reply_done, reply_list, reply_start,
    reply_value, required_commit, required_start, shard_not_found, AddressBook, Failover, Joining,
    KnnGather, MutationKind,
};
use strata::sharding::commands::ShardCommand;
use strata::sharding::routing::{RangeRoute, RoutingTable, ShardId};
use strata::storage::timestamp::HlcTimestamp;
use strata::txn::coordinator::Mutation;

fn at(physical: u64) -> HlcTimestamp {
    HlcTimestamp { physical, logical: 0 }
}

fn route(start: &[u8], end: &[u8], shard: u32, group: &[u64]) -> RangeRoute {
    RangeRoute {
        start_key: start.to_vec(),
        end_key: end.to_vec(),
        shard_id: ShardId(shard),
        raft_group: group.to_vec(),
    }
}

fn table() -> RoutingTable {
    RoutingTable { routes: vec![route(b"", b"m", 1, &[4, 5]), route(b"m", b"", 2, &[])] }
}

#[test]
fn keys_of_vectors_say_their_numbers() {
    assert_eq!(make_vector_key(120), b"vec:120".to_vec());
    assert_eq!(read_vector_key(b"vec:120"), Some(120));
    assert_eq!(read_vector_key(b"vec:007"), Some(7));
    assert_eq!(read_vector_key(b"vec:"), None);
    assert_eq!(read_vector_key(b"vec:x"), None);
    assert_eq!(read_vector_key(b"key"), None);
    for id in [0, 1, 10, u64::MAX] {
        assert_eq!(read_vector_key(&make_vector_key(id)), Some(id));
    }
}

#[test]
fn writes_go_to_the_shard_of_their_key() {
    let p = plan_put(&table(), b"vec:9".to_vec(), b"v".to_vec(), at(3));
    assert_eq!(p.shard, ShardId(2));
    assert_eq!(p.vector, Some(9));
    assert!(matches!(p.command, ShardCommand::Put { ts, .. } if ts == at(3)));
    let d = plan_delete(&table(), b"apple".to_vec(), at(4));
    assert_eq!(d.shard, ShardId(1));
    assert_eq!(d.vector, None);
    assert!(matches!(d.command, ShardCommand::Delete { ts, .. } if ts == at(4)));
    assert_eq!(read_time(Some(at(8))), at(8));
    assert_eq!(read_time(None).physical, u64::MAX);
}

#[test]
fn a_search_gathers_from_all_shards() {
    let mut g = KnnGather::new(&table(), 3, Some(50));
    assert_eq!(g.next(), Some((ShardId(1), 4)));
    g.on_local(Some(vec![(1, 10), (2, 60)]));
    assert_eq!(g.next(), Some((ShardId(2), 1)));
    g.on_remote(Some(vec![(3, 5), (1, 10), (4, 70)]));
    assert_eq!(g.next(), None);
    assert_eq!(g.finish(), vec![(3, 5), (1, 10), (4, 70)]);
}

#[test]
fn shards_that_fail_give_nothing() {
    let mut g = KnnGather::new(&table(), 3, None);
    g.on_local(None);
    g.on_remote(None);
    assert_eq!(g.finish(), vec![]);
}

#[test]
fn a_range_asks_the_shards_that_it_touches() {
    assert_eq!(range_lookups(&table(), b"a", b"c"), vec![b"".to_vec()]);
    assert_eq!(range_lookups(&table(), b"a", b""), vec![b"".to_vec(), b"m".to_vec()]);
    assert_eq!(range_lookups(&table(), b"n", b"z"), vec![b"m".to_vec()]);
}

#[test]
fn lists_are_in_order_and_without_inner_keys() {
    let pair = |k: &[u8]| (k.to_vec(), b"v".to_vec());
    let got = list_pairs(vec![pair(b"b"), pair(b"__x"), pair(b"a")]);
    assert_eq!(got, vec![pair(b"a"), pair(b"b")]);
}

#[test]
fn changes_are_read_from_messages() {
    assert!(matches!(
        mutation_of(Some(MutationKind::Put), b"k".to_vec(), b"v".to_vec()),
        Ok(Mutation::Put(_, _))
    ));
    assert!(matches!(
        mutation_of(Some(MutationKind::Delete), b"k".to_vec(), vec![]),
        Ok(Mutation::Delete(_))
    ));
    assert!(mutation_of(None, vec![], vec![]).is_err());
    let (kind, key, value) = mutation_parts(Mutation::Delete(b"k".to_vec()));
    assert_eq!((kind, key, value), (MutationKind::Delete, b"k".to_vec(), vec![]));
    assert_eq!(required_start(None), Err("Missing start_ts".to_string()));
    assert_eq!(required_commit(None), Err("Missing commit_ts".to_string()));
    assert_eq!(required_start(Some(at(1))), Ok(at(1)));
    assert_eq!(required_commit(Some(at(2))), Ok(at(2)));
    assert_eq!(shard_not_found(12), "Shard 12 not found");
}

#[test]
fn replies_come_to_results() {
    assert_eq!(reply_done(true, String::new()), Ok(()));
    assert_eq!(reply_done(false, "no".to_string()), Err("no".to_string()));
    assert_eq!(reply_value(true, vec![1], String::new()), Ok(Some(vec![1])));
    assert_eq!(reply_value(false, vec![1], String::new()), Ok(None));
    assert_eq!(reply_value(true, vec![1], "no".to_string()), Err("no".to_string()));
    assert_eq!(reply_list(vec![1, 2], String::new()), Ok(vec![1, 2]));
    assert_eq!(reply_list(vec![1, 2], "no".to_string()), Err("no".to_string()));
    assert_eq!(reply_start(Some(at(1))), Ok(at(1)));
    assert_eq!(reply_start(None), Err("Missing start timestamp in response".to_string()));
}

#[test]
fn nodes_are_found_at_their_addresses() {
    let mut book = AddressBook::new();
    book.add_peer(3, "10.0.0.3:1".to_string());
    assert_eq!(book.address(3).unwrap(), "10.0.0.3:1");
    assert!(matches!(book.address(4), Err(TransportError::ConnectionRefused) | Err(TransportError::Other(_))));
}

#[test]
fn one_server_after_the_other_is_asked() {
    let mut f = Failover::new();
    assert_eq!(f.on_reply::<u8>(Err("down".to_string())), None);
    assert_eq!(f.on_reply(Ok(7)), Some(7));
    assert_eq!(f.give_up::<u8>(), Err("down".to_string()));
    assert_eq!(Failover::new().give_up::<u8>(), Err("No client available".to_string()));
    assert!(!refresh_failed().is_empty());
}

#[test]
fn a_client_keeps_the_first_table() {
    let mut j = Joining::new();
    assert!(j.wants_table());
    j.on_server(None);
    assert!(j.wants_table());
    j.on_server(Some(table()));
    assert!(!j.wants_table());
    assert_eq!(j.finish().unwrap(), table());
    assert!(Joining::new().finish().is_err());
    let mut k = Joining::new();
    k.on_server(None);
    assert_eq!(k.finish().unwrap(), RoutingTable::new());
}

#[test]
fn filters_are_sent_as_bytes() {
    let bytes = filter_bytes(&[5, 1, 1, 70000]).unwrap();
    let back = read_filter(&bytes).unwrap();
    assert_eq!(back.iter().collect::<Vec<u32>>(), vec![1, 5, 70000]);
    assert_eq!(filter_of(&[5, 1]).len(), 2);
    assert!(read_filter(&[1, 2, 3]).is_none());
    let mut plain = Vec::new();
    filter_of(&[5, 1, 70000]).serialize_into(&mut plain).unwrap();
    assert_eq!(bytes, plain);
}

#[test]
fn simulated_time_goes_from_timer_to_timer() {
    let mut sim = SimState::new(1);
    assert_eq!(sim.deadline(5), Some(sim.clock + 5));
    let start = sim.clock;
    sim.register(start + 20, 1);
    sim.register(start + 10, 2);
    sim.register(start + 10, 3);
    assert!(!sim.has_come(start + 10));
    assert_eq!(sim.step(), vec![2, 3]);
    assert!(sim.has_come(start + 10));
    assert_eq!(sim.step(), vec![1]);
    assert_eq!(sim.step(), Vec::<u64>::new());
    assert_eq!(sim.clock, start + 20);
}

#[test]
fn simulated_files_hold_what_was_written() {
    let mut sim = SimState::new(1);
    assert!(sim.read_file_sync(b"f").is_err());
    sim.write_file_sync(b"f", b"ab");
    sim.append_file_sync(b"f", b"c");
    sim.append_file_sync(b"g", b"x");
    assert_eq!(sim.read_file_sync(b"f").unwrap(), b"abc".to_vec());
    assert_eq!(sim.read_file_sync(b"g").unwrap(), b"x".to_vec());
    sim.remove_file_sync(b"f");
    assert!(sim.read_file_sync(b"f").is_err());
}

#[test]
fn messages_are_lost_as_often_as_said() {
    let mut sim = SimState::new(42);
    assert!((0..100).all(|_| !sim.loses_message()));
    sim.set_drop_rate(1, 1);
    assert!((0..100).all(|_| sim.loses_message()));
    sim.set_drop_rate(1, 2);
    let lost = (0..1000).filter(|_| sim.loses_message()).count();
    assert!(lost > 400 && lost < 600);
    let mut again = SimState::new(42);
    let mut other = SimState::new(42);
    again.set_drop_rate(1, 2);
    other.set_drop_rate(1, 2);
    let a: Vec<bool> = (0..50).map(|_| again.loses_message()).collect();
    let b: Vec<bool> = (0..50).map(|_| other.loses_message()).collect();
    assert_eq!(a, b);
}
