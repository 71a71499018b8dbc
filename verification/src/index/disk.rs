//! A flat graph on disk, searched by short codes in memory and ranked by the
//! full vectors on disk.
//!
//! Three files belong to an index. The graph file starts with a header and has
//! one record per node: its number, how many neighbours it has, and room for as
//! many as a node may have. The vector file has one record per node: its number
//! and its vector. The code file starts with a header and has one record per
//! node: its number and its short code. The nodes stand in one order in all.
use crate::bytes;
use crate::bytes::{append_bytes, copy_range, push_le, read_le_u32, read_le_u64};
use crate::index::beam;
use crate::index::error::{AnnIndexStats, IndexError};
use crate::index::hnsw;
use crate::index::measure;
use crate::index::order;
use crate::index::order::sort_pairs;
use crate::index::vamana;
use crate::index::vamana::{VamanaConfig, VamanaGraph};
use crate::index::walk;
use crate::index::walk::{Field, Pace};
use crate::text;
use std::collections::HashMap;
use vstd::prelude::*;

verus! {

broadcast use vstd::std_specs::hash::group_hash_axioms;

/// What a graph file starts with.
pub const MAGIC: u32 = 0x5641_4D41;

/// What stands in the place of a neighbour that is not there.
pub const NO_NODE: u64 = 0xFFFF_FFFF_FFFF_FFFF;

// ----------------------------------------------------------------------
// The graph file
// ----------------------------------------------------------------------
/// What the header of a graph file says.
#[derive(Debug, Clone, Copy, PartialEq, Eq, Structural)]
pub struct GraphHeader {
    pub num_points: u64,
    pub dims: u32,
    pub max_degree: u32,
    pub medoid_id: u64,
}

/// The header as it stands in the file.
pub open spec fn header_bytes(h: GraphHeader) -> Seq<u8> {
    bytes::le_bytes(MAGIC as nat, 4) + bytes::le_bytes(h.num_points as nat, 8) + bytes::le_bytes(
        h.dims as nat,
        4,
    ) + bytes::le_bytes(h.max_degree as nat, 4) + bytes::le_bytes(h.medoid_id as nat, 8)
}

/// The header that the bytes hold.
pub open spec fn header_of(b: Seq<u8>) -> GraphHeader {
    GraphHeader {
        num_points: bytes::le_value(b.subrange(4, 12)) as u64,
        dims: bytes::le_value(b.subrange(12, 16)) as u32,
        max_degree: bytes::le_value(b.subrange(16, 20)) as u32,
        medoid_id: bytes::le_value(b.subrange(20, 28)) as u64,
    }
}

/// The bytes start as a graph file does.
pub open spec fn has_magic(b: Seq<u8>) -> bool {
    bytes::le_value(b.subrange(0, 4)) == MAGIC
}

/// The neighbour that stands in slot `i` of a record.
pub open spec fn slot(nbs: Seq<u64>, i: int) -> u64 {
    if i < nbs.len() {
        nbs[i]
    } else {
        NO_NODE
    }
}

/// The first `n` slots of a record.
pub open spec fn slots_bytes(nbs: Seq<u64>, n: nat) -> Seq<u8>
    decreases n,
{
    if n == 0 {
        Seq::empty()
    } else {
        slots_bytes(nbs, (n - 1) as nat) + bytes::le_bytes(slot(nbs, n - 1) as nat, 8)
    }
}

/// The record of a node with at most `degree` neighbours.
pub open spec fn record_bytes(id: u64, nbs: Seq<u64>, degree: nat) -> Seq<u8> {
    bytes::le_bytes(id as nat, 8) + bytes::le_bytes(
        hnsw::lesser(nbs.len() as int, degree as int) as nat,
        4,
    ) + slots_bytes(nbs, degree)
}

/// The records of the nodes, one after the other.
pub open spec fn records_bytes(ids: Seq<u64>, adj: Map<u64, Seq<u64>>, degree: nat) -> Seq<u8>
    decreases ids.len(),
{
    if ids.len() == 0 {
        Seq::empty()
    } else {
        records_bytes(ids.drop_last(), adj, degree) + record_bytes(
            ids.last(),
            vamana::edges_of(adj, ids.last()),
            degree,
        )
    }
}

/// How many neighbours a record says that there are, as far as there is room.
pub open spec fn record_count(b: Seq<u8>, degree: nat) -> int {
    hnsw::lesser(bytes::le_value(b.subrange(8, 12)) as int, degree as int)
}

/// The number in slot `i` of a record.
pub open spec fn slot_of(b: Seq<u8>, i: int) -> u64 {
    bytes::le_value(b.subrange(12 + 8 * i, 20 + 8 * i)) as u64
}

/// The neighbours in the first `n` slots of a record.
pub open spec fn slots_of(b: Seq<u8>, n: int) -> Seq<u64>
    decreases n,
{
    if n <= 0 {
        Seq::empty()
    } else if slot_of(b, n - 1) != NO_NODE {
        slots_of(b, n - 1).push(slot_of(b, n - 1))
    } else {
        slots_of(b, n - 1)
    }
}

/// The neighbours that a record holds.
pub open spec fn neighbours_of(b: Seq<u8>, degree: nat) -> Seq<u64> {
    slots_of(b, record_count(b, degree))
}

/// How long a record is.
pub open spec fn record_len(degree: nat) -> nat {
    12 + 8 * degree
}

/// Where the record of the node at a place stands.
pub open spec fn record_at(place: nat, degree: nat) -> nat {
    28 + place * record_len(degree)
}

/// What a node's neighbours are once they were written and read back: as many
/// as there is room for.
pub open spec fn stored(nbs: Seq<u64>, degree: nat) -> Seq<u64> {
    nbs.take(hnsw::lesser(nbs.len() as int, degree as int))
}

proof fn lemma_slots_len(nbs: Seq<u64>, n: nat)
    ensures
        slots_bytes(nbs, n).len() == 8 * n,
    decreases n,
{
    broadcast use bytes::lemma_le_bytes_len;

    if n > 0 {
        lemma_slots_len(nbs, (n - 1) as nat);
    }
}

proof fn lemma_slots_at(nbs: Seq<u64>, n: nat, i: int)
    requires
        0 <= i < n,
    ensures
        slots_bytes(nbs, n).subrange(8 * i, 8 * i + 8) == bytes::le_bytes(slot(nbs, i) as nat, 8),
    decreases n,
{
    broadcast use bytes::lemma_le_bytes_len;

    lemma_slots_len(nbs, n);
    lemma_slots_len(nbs, (n - 1) as nat);
    let before = slots_bytes(nbs, (n - 1) as nat);
    let whole = slots_bytes(nbs, n);
    if i == n - 1 {
        assert(whole.subrange(8 * i, 8 * i + 8) =~= bytes::le_bytes(slot(nbs, i) as nat, 8));
    } else {
        lemma_slots_at(nbs, (n - 1) as nat, i);
        assert(whole.subrange(8 * i, 8 * i + 8) =~= before.subrange(8 * i, 8 * i + 8));
    }
}

proof fn lemma_slots_of(b: Seq<u8>, nbs: Seq<u64>, n: int)
    requires
        0 <= n <= nbs.len(),
        forall|i: int| 0 <= i < n ==> #[trigger] slot_of(b, i) == nbs[i],
        forall|i: int| 0 <= i < n ==> nbs[i] != NO_NODE,
    ensures
        slots_of(b, n) == nbs.take(n),
    decreases n,
{
    if n > 0 {
        lemma_slots_of(b, nbs, n - 1);
        assert(slot_of(b, n - 1) == nbs[n - 1]);
        assert(nbs.take(n) =~= nbs.take(n - 1).push(nbs[n - 1]));
    } else {
        assert(nbs.take(0) =~= Seq::empty());
    }
}

/// What was written of a node's neighbours is read back.
pub proof fn lemma_record_round_trip(id: u64, nbs: Seq<u64>, degree: nat)
    requires
        degree <= u32::MAX,
        !nbs.contains(NO_NODE),
    ensures
        record_bytes(id, nbs, degree).len() == record_len(degree),
        neighbours_of(record_bytes(id, nbs, degree), degree) == stored(nbs, degree),
{
    broadcast use bytes::lemma_le_bytes_len;

    let b = record_bytes(id, nbs, degree);
    let count = hnsw::lesser(nbs.len() as int, degree as int);
    lemma_slots_len(nbs, degree);
    bytes::lemma_pow256();
    bytes::lemma_le_round_trip(count as nat, 4);
    assert(b.subrange(8, 12) =~= bytes::le_bytes(count as nat, 4));
    assert forall|i: int| 0 <= i < count implies #[trigger] slot_of(b, i) == nbs[i] by {
        lemma_slots_at(nbs, degree, i);
        assert(b.subrange(12 + 8 * i, 20 + 8 * i) =~= slots_bytes(nbs, degree).subrange(
            8 * i,
            8 * i + 8,
        ));
        bytes::lemma_le_round_trip(nbs[i] as nat, 8);
    }
    assert forall|i: int| 0 <= i < count implies nbs[i] != NO_NODE by {
        assert(nbs.contains(nbs[i]));
    }
    lemma_slots_of(b, nbs, count);
}

/// The header that was written is read back.
pub proof fn lemma_header_round_trip(h: GraphHeader, rest: Seq<u8>)
    ensures
        header_bytes(h).len() == 28,
        has_magic(header_bytes(h) + rest),
        header_of(header_bytes(h) + rest) == h,
{
    broadcast use bytes::lemma_le_bytes_len;

    let b = header_bytes(h) + rest;
    bytes::lemma_pow256();
    bytes::lemma_le_round_trip(MAGIC as nat, 4);
    bytes::lemma_le_round_trip(h.num_points as nat, 8);
    bytes::lemma_le_round_trip(h.dims as nat, 4);
    bytes::lemma_le_round_trip(h.max_degree as nat, 4);
    bytes::lemma_le_round_trip(h.medoid_id as nat, 8);
    assert(b.subrange(0, 4) =~= bytes::le_bytes(MAGIC as nat, 4));
    assert(b.subrange(4, 12) =~= bytes::le_bytes(h.num_points as nat, 8));
    assert(b.subrange(12, 16) =~= bytes::le_bytes(h.dims as nat, 4));
    assert(b.subrange(16, 20) =~= bytes::le_bytes(h.max_degree as nat, 4));
    assert(b.subrange(20, 28) =~= bytes::le_bytes(h.medoid_id as nat, 8));
}

proof fn lemma_records_len(ids: Seq<u64>, adj: Map<u64, Seq<u64>>, degree: nat)
    ensures
        records_bytes(ids, adj, degree).len() == ids.len() * record_len(degree),
    decreases ids.len(),
{
    broadcast use bytes::lemma_le_bytes_len;

    if ids.len() > 0 {
        lemma_records_len(ids.drop_last(), adj, degree);
        lemma_slots_len(vamana::edges_of(adj, ids.last()), degree);
        let n = ids.len();
        let l = record_len(degree);
        assert(n * l == (n - 1) * l + l) by (nonlinear_arith);
    }
}

/// The record of each node stands in the file at the node's place.
pub proof fn lemma_record_at(
    ids: Seq<u64>,
    adj: Map<u64, Seq<u64>>,
    h: GraphHeader,
    degree: nat,
    place: int,
)
    requires
        0 <= place < ids.len(),
    ensures
        ({
            let file = header_bytes(h) + records_bytes(ids, adj, degree);
            let at = record_at(place as nat, degree);
            &&& at + record_len(degree) <= file.len()
            &&& file.subrange(at as int, (at + record_len(degree)) as int) == record_bytes(
                ids[place],
                vamana::edges_of(adj, ids[place]),
                degree,
            )
        }),
    decreases ids.len(),
{
    lemma_header_round_trip(h, Seq::empty());
    lemma_records_len(ids, adj, degree);
    lemma_records_len(ids.drop_last(), adj, degree);
    let l = record_len(degree) as int;
    let n = ids.len() as int;
    let all = records_bytes(ids, adj, degree);
    let file = header_bytes(h) + all;
    let at = record_at(place as nat, degree) as int;
    assert(place * l + l <= n * l && (n - 1) * l + l == n * l) by (nonlinear_arith)
        requires
            place < n,
            l >= 0,
    ;
    if place == n - 1 {
        assert(file.subrange(at, at + l) =~= record_bytes(
            ids[place],
            vamana::edges_of(adj, ids[place]),
            degree,
        ));
    } else {
        lemma_record_at(ids.drop_last(), adj, h, degree, place);
        let before = header_bytes(h) + records_bytes(ids.drop_last(), adj, degree);
        assert(file.subrange(at, at + l) =~= before.subrange(at, at + l));
        assert(ids.drop_last()[place] == ids[place]);
    }
}

/// The bytes of a graph file.
pub fn write_graph_file(
    graph: &VamanaGraph,
    all_ids: &[u64],
    dims: u32,
    max_degree: u32,
) -> (r: Vec<u8>)
    ensures
        r@ == header_bytes(
            GraphHeader {
                num_points: all_ids@.len() as u64,
                dims,
                max_degree,
                medoid_id: graph.medoid_id,
            },
        ) + records_bytes(all_ids@, graph.edges(), max_degree as nat),
{
    let n: u64 = all_ids.len() as u64;
    let ghost h = GraphHeader { num_points: n, dims, max_degree, medoid_id: graph.medoid_id };
    let mut out: Vec<u8> = Vec::new();
    push_le(&mut out, MAGIC as u64, 4);
    push_le(&mut out, n, 8);
    push_le(&mut out, dims as u64, 4);
    push_le(&mut out, max_degree as u64, 4);
    push_le(&mut out, graph.medoid_id, 8);
    assert(out@ =~= header_bytes(h));
    let mut i: usize = 0;
    assert(out@ =~= header_bytes(h) + records_bytes(
        all_ids@.take(0),
        graph.edges(),
        max_degree as nat,
    ));
    while i < all_ids.len()
        invariant
            i <= all_ids@.len(),
            out@ == header_bytes(h) + records_bytes(
                all_ids@.take(i as int),
                graph.edges(),
                max_degree as nat,
            ),
        decreases all_ids@.len() - i,
    {
        let ghost before = out@;
        let id: u64 = all_ids[i];
        let nbs = graph.neighbours(id);
        push_record(&mut out, id, nbs.as_slice(), max_degree);
        proof {
            assert(all_ids@.take(i + 1).drop_last() =~= all_ids@.take(i as int));
            assert(all_ids@.take(i + 1).last() == id);
            assert(out@ =~= header_bytes(h) + records_bytes(
                all_ids@.take(i + 1),
                graph.edges(),
                max_degree as nat,
            ));
        }
        i = i + 1;
    }
    assert(all_ids@.take(i as int) =~= all_ids@);
    out
}

/// Appends the record of a node.
fn push_record(out: &mut Vec<u8>, id: u64, nbs: &[u64], max_degree: u32)
    ensures
        final(out)@ == old(out)@ + record_bytes(id, nbs@, max_degree as nat),
{
    let count: u64 = if nbs.len() as u64 <= max_degree as u64 {
        nbs.len() as u64
    } else {
        max_degree as u64
    };
    push_le(out, id, 8);
    push_le(out, count, 4);
    let ghost start = out@;
    let mut i: u32 = 0;
    assert(out@ =~= start + slots_bytes(nbs@, 0));
    while i < max_degree
        invariant
            i <= max_degree,
            out@ == start + slots_bytes(nbs@, i as nat),
        decreases max_degree - i,
    {
        let nb: u64 = if (i as u64) < nbs.len() as u64 {
            nbs[i as usize]
        } else {
            NO_NODE
        };
        push_le(out, nb, 8);
        assert(nb == slot(nbs@, i as int));
        assert(out@ =~= start + slots_bytes(nbs@, (i + 1) as nat));
        i = i + 1;
    }
    assert(out@ =~= old(out)@ + record_bytes(id, nbs@, max_degree as nat));
}

/// The header of a graph file, of which `b` is at least the start.
pub fn read_graph_header(b: &[u8]) -> (r: Result<GraphHeader, IndexError>)
    ensures
        r is Ok <==> b@.len() >= 28 && has_magic(b@),
        r matches Ok(h) ==> h == header_of(b@),
        r matches Err(e) ==> if b@.len() < 28 {
            e matches IndexError::Io(m) && m@ == "failed to fill whole buffer"@
        } else {
            e matches IndexError::Other(m) && m@ == "Invalid Vamana graph file (bad magic)"@
        },
{
    if b.len() < 28 {
        return Err(IndexError::Io("failed to fill whole buffer".to_owned()));
    }
    proof {
        bytes::lemma_pow256();
        bytes::lemma_le_value_bound(b@.subrange(4, 12));
        bytes::lemma_le_value_bound(b@.subrange(12, 16));
        bytes::lemma_le_value_bound(b@.subrange(16, 20));
        bytes::lemma_le_value_bound(b@.subrange(20, 28));
    }
    if read_le_u32(b, 0) != MAGIC {
        return Err(IndexError::Other("Invalid Vamana graph file (bad magic)".to_owned()));
    }
    Ok(
        GraphHeader {
            num_points: read_le_u64(b, 4),
            dims: read_le_u32(b, 12),
            max_degree: read_le_u32(b, 16),
            medoid_id: read_le_u64(b, 20),
        },
    )
}

/// The neighbours that a record holds.
pub fn read_neighbours(record: &[u8], max_degree: u32) -> (r: Vec<u64>)
    requires
        record@.len() == record_len(max_degree as nat),
    ensures
        r@ == neighbours_of(record@, max_degree as nat),
{
    let said: u32 = read_le_u32(record, 8);
    let count: u32 = if said <= max_degree {
        said
    } else {
        max_degree
    };
    let len: usize = record.len();
    let mut out: Vec<u64> = Vec::new();
    let mut i: u32 = 0;
    while i < count
        invariant
            i <= count <= max_degree,
            record@.len() == len,
            len == record_len(max_degree as nat),
            out@ == slots_of(record@, i as int),
        decreases count - i,
    {
        let base: usize = 12 + 8 * (i as usize);
        let nb: u64 = read_le_u64(record, base);
        assert(nb == slot_of(record@, i as int));
        if nb != NO_NODE {
            out.push(nb);
        }
        i = i + 1;
    }
    out
}

// ----------------------------------------------------------------------
// The vector file and the code file
// ----------------------------------------------------------------------
/// Records of numbers and what belongs to them, one after the other.
pub open spec fn pairs_bytes(ids: Seq<u64>, values: Seq<Vec<u8>>) -> Seq<u8>
    decreases ids.len(),
{
    if ids.len() == 0 {
        Seq::empty()
    } else {
        pairs_bytes(ids.drop_last(), values) + bytes::le_bytes(ids.last() as nat, 8) + values[
        ids.len() - 1]@
    }
}

/// The values, one after the other.
pub open spec fn joined(values: Seq<Vec<u8>>, n: nat) -> Seq<u8>
    decreases n,
{
    if n == 0 {
        Seq::empty()
    } else {
        joined(values, (n - 1) as nat) + values[n - 1]@
    }
}

/// The place of each node; where a node stands twice, the later place.
pub open spec fn places_of(ids: Seq<u64>) -> Map<u64, usize>
    decreases ids.len(),
{
    if ids.len() == 0 {
        Map::empty()
    } else {
        places_of(ids.drop_last()).insert(ids.last(), (ids.len() - 1) as usize)
    }
}

/// The bytes of a code file.
pub open spec fn code_bytes(ids: Seq<u64>, codes: Seq<Vec<u8>>, m: nat) -> Seq<u8> {
    bytes::le_bytes(ids.len(), 8) + bytes::le_bytes(m, 4) + pairs_bytes(ids, codes)
}

/// The node of the `i`th record of a code file.
pub open spec fn code_id(b: Seq<u8>, i: int, m: nat) -> u64 {
    bytes::le_value(b.subrange(12 + i * (8 + m), 20 + i * (8 + m))) as u64
}

/// The code of the `i`th record of a code file.
pub open spec fn code_at(b: Seq<u8>, i: int, m: nat) -> Seq<u8> {
    b.subrange(20 + i * (8 + m), 12 + (i + 1) * (8 + m))
}

/// The codes of the first `n` records, one after the other.
pub open spec fn codes_in(b: Seq<u8>, n: nat, m: nat) -> Seq<u8>
    decreases n,
{
    if n == 0 {
        Seq::empty()
    } else {
        codes_in(b, (n - 1) as nat, m) + code_at(b, n - 1, m)
    }
}

/// The places of the nodes of the first `n` records.
pub open spec fn places_in(b: Seq<u8>, n: nat, m: nat) -> Map<u64, usize>
    decreases n,
{
    if n == 0 {
        Map::empty()
    } else {
        places_in(b, (n - 1) as nat, m).insert(code_id(b, n - 1, m), (n - 1) as usize)
    }
}

/// How many nodes a code file says that it holds.
pub open spec fn code_count(b: Seq<u8>) -> nat {
    bytes::le_value(b.subrange(0, 8))
}

/// How long a code file says that its codes are.
pub open spec fn code_len(b: Seq<u8>) -> nat {
    bytes::le_value(b.subrange(8, 12))
}

/// A code file can be read with codes of this length.
pub open spec fn has_codes(b: Seq<u8>, m: nat) -> bool {
    b.len() >= 12 && code_len(b) == m && 12 + code_count(b) * (8 + m) <= b.len()
}

/// What is said of codes of another length than expected.
pub open spec fn mismatch_message(stored: nat, expected: nat) -> Seq<char> {
    "PQ subspace mismatch: file has "@ + text::number(stored) + ", expected "@ + text::number(
        expected,
    )
}

fn push_pairs(out: &mut Vec<u8>, ids: &[u64], values: &[Vec<u8>])
    requires
        ids@.len() == values@.len(),
    ensures
        final(out)@ == old(out)@ + pairs_bytes(ids@, values@),
{
    let ghost start = out@;
    let mut i: usize = 0;
    assert(out@ =~= start + pairs_bytes(ids@.take(0), values@));
    while i < ids.len()
        invariant
            i <= ids@.len(),
            ids@.len() == values@.len(),
            out@ == start + pairs_bytes(ids@.take(i as int), values@),
        decreases ids@.len() - i,
    {
        push_le(out, ids[i], 8);
        append_bytes(out, values[i].as_slice());
        assert(ids@.take(i + 1).drop_last() =~= ids@.take(i as int));
        assert(out@ =~= start + pairs_bytes(ids@.take(i + 1), values@));
        i = i + 1;
    }
    assert(ids@.take(i as int) =~= ids@);
}

/// The bytes of a vector file: the vectors as they stand in memory.
pub fn write_vecs_file(all_ids: &[u64], vectors: &[Vec<u8>]) -> (r: Vec<u8>)
    requires
        all_ids@.len() == vectors@.len(),
    ensures
        r@ == pairs_bytes(all_ids@, vectors@),
{
    let mut out: Vec<u8> = Vec::new();
    push_pairs(&mut out, all_ids, vectors);
    assert(out@ =~= pairs_bytes(all_ids@, vectors@));
    out
}

/// The bytes of a code file.
pub fn write_pq_codes(all_ids: &[u64], codes: &[Vec<u8>], m: u32) -> (r: Vec<u8>)
    requires
        all_ids@.len() == codes@.len(),
    ensures
        r@ == code_bytes(all_ids@, codes@, m as nat),
{
    let mut out: Vec<u8> = Vec::new();
    push_le(&mut out, all_ids.len() as u64, 8);
    push_le(&mut out, m as u64, 4);
    push_pairs(&mut out, all_ids, codes);
    assert(out@ =~= code_bytes(all_ids@, codes@, m as nat));
    out
}

/// The codes of a code file, one after the other, and the place of each node.
pub fn load_pq_codes(b: &[u8], m: usize) -> (r: Result<(Vec<u8>, HashMap<u64, usize>), IndexError>)
    ensures
        r is Ok <==> has_codes(b@, m as nat),
        r matches Ok((codes, places)) ==> codes@ == codes_in(b@, code_count(b@), m as nat)
            && places@ == places_in(b@, code_count(b@), m as nat),
        r matches Err(e) ==> if b@.len() >= 12 && code_len(b@) != m {
            e matches IndexError::Other(t) && t@ == mismatch_message(code_len(b@), m as nat)
        } else {
            e matches IndexError::Io(t) && t@ == "failed to fill whole buffer"@
        },
{
    if b.len() < 12 {
        return Err(IndexError::Io("failed to fill whole buffer".to_owned()));
    }
    let n: u64 = read_le_u64(b, 0);
    let stored: u32 = read_le_u32(b, 8);
    if stored as u64 != m as u64 {
        let mut t: String = "PQ subspace mismatch: file has ".to_owned();
        text::push_number(&mut t, stored as u64);
        text::push_text(&mut t, ", expected ");
        text::push_number(&mut t, m as u64);
        return Err(IndexError::Other(t));
    }
    let end: usize = b.len();
    let mut codes: Vec<u8> = Vec::new();
    let mut places: HashMap<u64, usize> = HashMap::new();
    let mut pos: u64 = 0;
    let mut at: usize = 12;
    assert(0 * (8 + m) == 0) by (nonlinear_arith);
    while pos < n
        invariant
            pos <= n,
            n == code_count(b@),
            m == code_len(b@),
            b@.len() == end,
            12 <= at <= end,
            at == 12 + pos * (8 + m),
            codes@ == codes_in(b@, pos as nat, m as nat),
            places@ == places_in(b@, pos as nat, m as nat),
        decreases n - pos,
    {
        let left: usize = end - at;
        let ghost l = (8 + m) as int;
        assert((pos + 1) * l == pos * l + l) by (nonlinear_arith);
        if left < 8 || left - 8 < m {
            assert((pos + 1) * l <= n * l) by (nonlinear_arith)
                requires
                    pos + 1 <= n,
                    l >= 0,
            ;
            return Err(IndexError::Io("failed to fill whole buffer".to_owned()));
        }
        let id: u64 = read_le_u64(b, at);
        let code = copy_range(b, at + 8, at + 8 + m);
        assert(pos <= pos * l) by (nonlinear_arith)
            requires
                l >= 8,
        ;
        assert(id == code_id(b@, pos as int, m as nat));
        assert(code@ =~= code_at(b@, pos as int, m as nat));
        append_bytes(&mut codes, code.as_slice());
        places.insert(id, pos as usize);
        at = at + 8 + m;
        pos = pos + 1;
    }
    Ok((codes, places))
}

proof fn lemma_pairs_len(ids: Seq<u64>, values: Seq<Vec<u8>>, m: nat)
    requires
        ids.len() <= values.len(),
        forall|i: int| 0 <= i < values.len() ==> (#[trigger] values[i])@.len() == m,
    ensures
        pairs_bytes(ids, values).len() == ids.len() * (8 + m),
    decreases ids.len(),
{
    broadcast use bytes::lemma_le_bytes_len;

    if ids.len() > 0 {
        lemma_pairs_len(ids.drop_last(), values, m);
        let n = ids.len() as int;
        assert(n * (8 + m) == (n - 1) * (8 + m) + (8 + m)) by (nonlinear_arith);
    }
}

/// The record of each node in a file of records of one length.
pub(crate) proof fn lemma_pair_at(ids: Seq<u64>, values: Seq<Vec<u8>>, m: nat, i: int)
    requires
        0 <= i < ids.len() <= values.len(),
        forall|i: int| 0 <= i < values.len() ==> (#[trigger] values[i])@.len() == m,
    ensures
        pairs_bytes(ids, values).subrange(i * (8 + m), (i + 1) * (8 + m)) == bytes::le_bytes(
            ids[i] as nat,
            8,
        ) + values[i]@,
        (i + 1) * (8 + m) <= pairs_bytes(ids, values).len(),
    decreases ids.len(),
{
    broadcast use bytes::lemma_le_bytes_len;

    let n = ids.len() as int;
    let l = (8 + m) as int;
    lemma_pairs_len(ids, values, m);
    lemma_pairs_len(ids.drop_last(), values, m);
    assert((i + 1) * l <= n * l && (i + 1) * l == i * l + l && n * l == (n - 1) * l + l && 0 <= i
        * l) by (nonlinear_arith)
        requires
            0 <= i < n,
            l >= 0,
    ;
    let whole = pairs_bytes(ids, values);
    if i == n - 1 {
        assert(whole.subrange(i * l, (i + 1) * l) =~= bytes::le_bytes(ids[i] as nat, 8)
            + values[i]@);
    } else {
        lemma_pair_at(ids.drop_last(), values, m, i);
        assert(whole.subrange(i * l, (i + 1) * l) =~= pairs_bytes(
            ids.drop_last(),
            values,
        ).subrange(i * l, (i + 1) * l));
        assert(ids.drop_last()[i] == ids[i]);
    }
}

proof fn lemma_codes_in(ids: Seq<u64>, codes: Seq<Vec<u8>>, m: nat, n: nat)
    requires
        n <= ids.len(),
        ids.len() == codes.len(),
        forall|i: int| 0 <= i < codes.len() ==> (#[trigger] codes[i])@.len() == m,
    ensures
        codes_in(code_bytes(ids, codes, m), n, m) == joined(codes, n),
        places_in(code_bytes(ids, codes, m), n, m) == places_of(ids.take(n as int)),
    decreases n,
{
    broadcast use bytes::lemma_le_bytes_len;

    let b = code_bytes(ids, codes, m);
    if n > 0 {
        let i = n - 1;
        let l = (8 + m) as int;
        lemma_codes_in(ids, codes, m, (n - 1) as nat);
        lemma_pair_at(ids, codes, m, i);
        assert((i + 1) * l == i * l + l && 0 <= i * l) by (nonlinear_arith)
            requires
                0 <= i,
                l >= 0,
        ;
        let rec = pairs_bytes(ids, codes).subrange(i * l, (i + 1) * l);
        bytes::lemma_pow256();
        bytes::lemma_le_round_trip(ids[i] as nat, 8);
        assert(b.subrange(12 + i * l, 20 + i * l) =~= rec.subrange(0, 8));
        assert(rec.subrange(0, 8) =~= bytes::le_bytes(ids[i] as nat, 8));
        assert(code_at(b, i, m) =~= rec.subrange(8, l));
        assert(rec.subrange(8, l) =~= codes[i]@);
        assert(ids.take(n as int).drop_last() =~= ids.take(n - 1));
    } else {
        assert(ids.take(0) =~= Seq::empty());
    }
}

/// The codes and the places that were written are read back.
pub proof fn lemma_codes_round_trip(ids: Seq<u64>, codes: Seq<Vec<u8>>, m: nat)
    requires
        m <= u32::MAX,
        ids.len() <= u64::MAX,
        ids.len() == codes.len(),
        forall|i: int| 0 <= i < codes.len() ==> (#[trigger] codes[i])@.len() == m,
    ensures
        has_codes(code_bytes(ids, codes, m), m),
        code_count(code_bytes(ids, codes, m)) == ids.len(),
        codes_in(code_bytes(ids, codes, m), ids.len(), m) == joined(codes, ids.len()),
        places_in(code_bytes(ids, codes, m), ids.len(), m) == places_of(ids),
{
    broadcast use bytes::lemma_le_bytes_len;

    let b = code_bytes(ids, codes, m);
    bytes::lemma_pow256();
    bytes::lemma_le_round_trip(ids.len(), 8);
    bytes::lemma_le_round_trip(m, 4);
    assert(b.subrange(0, 8) =~= bytes::le_bytes(ids.len(), 8));
    assert(b.subrange(8, 12) =~= bytes::le_bytes(m, 4));
    lemma_pairs_len(ids, codes, m);
    lemma_codes_in(ids, codes, m, ids.len());
    assert(ids.take(ids.len() as int) =~= ids);
}

// ----------------------------------------------------------------------
// The index
// ----------------------------------------------------------------------
/// What an index keeps in memory.
pub struct VamanaDiskIndex {
    pub config: VamanaConfig,
    /// The codes of the nodes in the order of their places.
    pub pq_codes: Vec<u8>,
    /// The place of each node in the files.
    pub node_pos: HashMap<u64, usize>,
    /// Where searches start.
    pub medoid_id: u64,
    pub num_points: usize,
    pub dims: u32,
    pub max_degree: u32,
    /// How long a code is.
    pub m: usize,
    /// How many nodes the files hold.
    pub nodes: usize,
}

#[verifier::ext_equal]
pub struct DiskView {
    pub config: VamanaConfig,
    pub codes: Seq<u8>,
    pub places: Map<u64, usize>,
    pub medoid_id: u64,
    pub num_points: usize,
    pub dims: u32,
    pub max_degree: u32,
    pub m: usize,
    pub nodes: usize,
}

impl View for VamanaDiskIndex {
    type V = DiskView;

    open spec fn view(&self) -> DiskView {
        DiskView {
            config: self.config,
            codes: self.pq_codes@,
            places: self.node_pos@,
            medoid_id: self.medoid_id,
            num_points: self.num_points,
            dims: self.dims,
            max_degree: self.max_degree,
            m: self.m,
            nodes: self.nodes,
        }
    }
}

/// The index over nodes that were just written to disk.
pub open spec fn built(
    config: VamanaConfig,
    ids: Seq<u64>,
    codes: Seq<Vec<u8>>,
    medoid: u64,
    dims: u32,
) -> DiskView {
    DiskView {
        config,
        codes: joined(codes, codes.len()),
        places: places_of(ids),
        medoid_id: medoid,
        num_points: ids.len() as usize,
        dims,
        max_degree: config.r as u32,
        m: config.pq_subspaces,
        nodes: ids.len() as usize,
    }
}

/// The index that files of these contents make.
pub open spec fn opened(config: VamanaConfig, h: GraphHeader, codes: Seq<u8>, m: usize) -> DiskView {
    DiskView {
        config,
        codes: codes_in(codes, code_count(codes), m as nat),
        places: places_in(codes, code_count(codes), m as nat),
        medoid_id: h.medoid_id,
        num_points: h.num_points as usize,
        dims: h.dims,
        max_degree: h.max_degree,
        m,
        nodes: code_count(codes) as usize,
    }
}

/// An index that was built and written is the same when it is opened again.
pub proof fn lemma_opened_is_built(
    config: VamanaConfig,
    ids: Seq<u64>,
    adj: Map<u64, Seq<u64>>,
    codes: Seq<Vec<u8>>,
    medoid: u64,
    dims: u32,
)
    requires
        config.r <= u32::MAX,
        config.pq_subspaces <= u32::MAX,
        ids.len() <= usize::MAX,
        ids.len() == codes.len(),
        forall|i: int|
            0 <= i < codes.len() ==> (#[trigger] codes[i])@.len() == config.pq_subspaces,
    ensures
        ({
            let h = GraphHeader {
                num_points: ids.len() as u64,
                dims,
                max_degree: config.r as u32,
                medoid_id: medoid,
            };
            let graph = header_bytes(h) + records_bytes(ids, adj, config.r as nat);
            let code = code_bytes(ids, codes, config.pq_subspaces as nat);
            &&& graph.len() >= 28
            &&& has_magic(graph)
            &&& has_codes(code, config.pq_subspaces as nat)
            &&& opened(config, header_of(graph), code, config.pq_subspaces) == built(
                config,
                ids,
                codes,
                medoid,
                dims,
            )
        }),
{
    let h = GraphHeader {
        num_points: ids.len() as u64,
        dims,
        max_degree: config.r as u32,
        medoid_id: medoid,
    };
    lemma_header_round_trip(h, records_bytes(ids, adj, config.r as nat));
    lemma_codes_round_trip(ids, codes, config.pq_subspaces as nat);
}

/// The nodes in ascending order: the order in which they stand in the files.
pub fn file_order(ids: Vec<u64>) -> (r: Vec<u64>)
    ensures
        r@.to_multiset() == ids@.to_multiset(),
        forall|i: int, j: int| 0 <= i < j < r@.len() ==> r@[i] <= r@[j],
{
    let mut pairs: Vec<(u64, u64)> = Vec::new();
    let mut i: usize = 0;
    while i < ids.len()
        invariant
            i <= ids@.len(),
            pairs@ == order::paired(ids@.take(i as int)),
        decreases ids@.len() - i,
    {
        pairs.push((ids[i], ids[i]));
        assert(pairs@ =~= order::paired(ids@.take(i + 1)));
        i = i + 1;
    }
    assert(ids@.take(i as int) =~= ids@);
    let sorted = sort_pairs(pairs);
    let mut out: Vec<u64> = Vec::new();
    let mut j: usize = 0;
    while j < sorted.len()
        invariant
            j <= sorted@.len(),
            out@ == order::firsts(sorted@.take(j as int)),
        decreases sorted@.len() - j,
    {
        out.push(sorted[j].0);
        assert(out@ =~= order::firsts(sorted@.take(j + 1)));
        j = j + 1;
    }
    proof {
        assert(sorted@.take(j as int) =~= sorted@);
        order::lemma_in_order(order::paired(ids@));
        order::lemma_firsts(sorted@, order::paired(ids@));
        assert(order::firsts(order::paired(ids@)) =~= ids@);
        assert forall|a: int, b: int| 0 <= a < b < out@.len() implies out@[a] <= out@[b] by {
            order::lemma_twins(sorted@, order::paired(ids@), a);
            order::lemma_twins(sorted@, order::paired(ids@), b);
            assert(sorted@[a].1 <= sorted@[b].1);
        }
    }
    out
}

// ----------------------------------------------------------------------
// Reading and searching
// ----------------------------------------------------------------------
/// The caller can read so many bytes from some place of a file on, or says why
/// it cannot; what it reads is always the same.
pub open spec fn reads<R: Fn(u64, usize) -> Result<Vec<u8>, String>>(read: &R) -> bool {
    &&& forall|at: u64, len: usize| #[trigger] call_requires(*read, (at, len))
    &&& forall|at: u64, len: usize, b: Vec<u8>| #[trigger]
        call_ensures(*read, (at, len), Ok::<Vec<u8>, String>(b)) ==> b@.len() == len
    &&& forall|at: u64, len: usize, a: Vec<u8>, b: Vec<u8>| #[trigger]
        call_ensures(*read, (at, len), Ok::<Vec<u8>, String>(a)) && #[trigger] call_ensures(
            *read,
            (at, len),
            Ok::<Vec<u8>, String>(b),
        ) ==> a@ == b@
}

/// What stands in the file.
pub open spec fn read_bytes<R: Fn(u64, usize) -> Result<Vec<u8>, String>>(
    read: &R,
    at: u64,
    len: usize,
) -> Seq<u8> {
    (choose|b: Vec<u8>| call_ensures(*read, (at, len), Ok::<Vec<u8>, String>(b)))@
}

/// Asked for these bytes, the caller may say that it cannot read them, and why.
pub open spec fn unreadable<R: Fn(u64, usize) -> Result<Vec<u8>, String>>(
    read: &R,
    at: u64,
    len: usize,
    e: Seq<char>,
) -> bool {
    exists|m: String| #[trigger]
        call_ensures(*read, (at, len), Err::<Vec<u8>, String>(m)) && m@ == e
}

/// Asked for these bytes, the caller can read them.
pub open spec fn readable<R: Fn(u64, usize) -> Result<Vec<u8>, String>>(
    read: &R,
    at: u64,
    len: usize,
) -> bool {
    exists|b: Vec<u8>| #[trigger] call_ensures(*read, (at, len), Ok::<Vec<u8>, String>(b))
}

fn read_from<R: Fn(u64, usize) -> Result<Vec<u8>, String>>(read: &R, at: u64, len: usize) -> (r:
    Result<Vec<u8>, String>)
    requires
        reads(read),
    ensures
        r matches Ok(b) ==> b@ == read_bytes(read, at, len) && b@.len() == len && readable(
            read,
            at,
            len,
        ),
        r matches Err(e) ==> unreadable(read, at, len, e@),
{
    match read(at, len) {
        Ok(b) => {
            assert(call_ensures(*read, (at, len), Ok::<Vec<u8>, String>(b)));
            Ok(b)
        },
        Err(e) => {
            assert(call_ensures(*read, (at, len), Err::<Vec<u8>, String>(e)));
            Err(e)
        },
    }
}

/// The files' offsets and the lengths of their records can be written as
/// numbers.
pub open spec fn addressable(g: DiskView) -> bool {
    &&& record_len(g.max_degree as nat) <= usize::MAX
    &&& vector_len(g.dims as nat) <= usize::MAX
    &&& record_at(g.nodes as nat, g.max_degree as nat) <= u64::MAX
    &&& vector_at(g.nodes as nat, g.dims as nat) <= u64::MAX
}

/// How long a record of the vector file is.
pub open spec fn vector_len(dims: nat) -> nat {
    8 + 4 * dims
}

/// Where the vector of the node at a place stands.
pub open spec fn vector_at(place: nat, dims: nat) -> nat {
    place * vector_len(dims)
}

/// Where a node's edges lead, as its record in the file says.
pub open spec fn disk_edges<R: Fn(u64, usize) -> Result<Vec<u8>, String>>(
    g: DiskView,
    read: &R,
    id: u64,
) -> Seq<u64> {
    if g.places.contains_key(id) {
        neighbours_of(
            read_bytes(
                read,
                record_at(g.places[id] as nat, g.max_degree as nat) as u64,
                record_len(g.max_degree as nat) as usize,
            ),
            g.max_degree as nat,
        )
    } else {
        Seq::empty()
    }
}

/// The record of a node may not be readable, for this reason.
pub open spec fn record_fails<R: Fn(u64, usize) -> Result<Vec<u8>, String>>(
    g: DiskView,
    read: &R,
    id: u64,
    e: Seq<char>,
) -> bool {
    g.places.contains_key(id) && unreadable(
        read,
        record_at(g.places[id] as nat, g.max_degree as nat) as u64,
        record_len(g.max_degree as nat) as usize,
        e,
    )
}

/// The record of a node that has one can be read.
pub open spec fn record_is_there<R: Fn(u64, usize) -> Result<Vec<u8>, String>>(
    g: DiskView,
    read: &R,
    id: u64,
) -> bool {
    g.places.contains_key(id) ==> readable(
        read,
        record_at(g.places[id] as nat, g.max_degree as nat) as u64,
        record_len(g.max_degree as nat) as usize,
    )
}

/// The vector of a node that has one can be read.
pub open spec fn vector_is_there<R: Fn(u64, usize) -> Result<Vec<u8>, String>>(
    g: DiskView,
    read: &R,
    id: u64,
) -> bool {
    g.places.contains_key(id) ==> readable(
        read,
        vector_at(g.places[id] as nat, g.dims as nat) as u64,
        vector_len(g.dims as nat) as usize,
    )
}

/// How a search by codes for `k` candidates goes: it expands as many nodes at once as
/// is set, in the order of their places.
pub open spec fn disk_pace(g: DiskView, k: nat) -> Pace {
    Pace { ef: k, width: g.config.beam_width as nat, place: |id: u64| place_of(g, id) }
}

/// The place of a node.
pub open spec fn place_of(g: DiskView, id: u64) -> usize {
    if g.places.contains_key(id) {
        g.places[id]
    } else {
        0
    }
}

/// A search by codes for `k` candidates expands these nodes at once, at some time.
pub open spec fn disk_expands(g: DiskView, f: Field, k: nat, ids: Seq<u64>) -> bool {
    walk::expands(f, walk::started(f, k), disk_pace(g, k), ids)
}

/// The records of all nodes can be read that a search by codes for `k` candidates
/// expands.
pub open spec fn records_are_there<R: Fn(u64, usize) -> Result<Vec<u8>, String>>(
    g: DiskView,
    read: &R,
    f: Field,
    k: nat,
) -> bool {
    forall|ids: Seq<u64>, i: int|
        #![trigger disk_expands(g, f, k, ids), ids[i]]
        disk_expands(g, f, k, ids) && 0 <= i < ids.len() ==> record_is_there(g, read, ids[i])
}

/// The vectors of all these nodes can be read.
pub open spec fn vectors_are_there<R: Fn(u64, usize) -> Result<Vec<u8>, String>>(
    g: DiskView,
    read: &R,
    ids: Seq<u64>,
) -> bool {
    forall|i: int| 0 <= i < ids.len() ==> vector_is_there(g, read, #[trigger] ids[i])
}

/// The record of one of the nodes may not be readable, for this reason.
pub open spec fn some_fails<R: Fn(u64, usize) -> Result<Vec<u8>, String>>(
    g: DiskView,
    read: &R,
    ids: Seq<u64>,
    e: Seq<char>,
) -> bool {
    exists|i: int| 0 <= i < ids.len() && record_fails(g, read, #[trigger] ids[i], e)
}

/// A search by codes for `k` candidates may fail for this reason: the record of a node
/// that it expands may not be readable.
pub open spec fn coarse_fails<R: Fn(u64, usize) -> Result<Vec<u8>, String>>(
    g: DiskView,
    read: &R,
    f: Field,
    k: nat,
    e: Seq<char>,
) -> bool {
    exists|ids: Seq<u64>| #[trigger] disk_expands(g, f, k, ids) && some_fails(g, read, ids, e)
}

/// The vector of a node may not be readable, for this reason.
pub open spec fn vector_fails<R: Fn(u64, usize) -> Result<Vec<u8>, String>>(
    g: DiskView,
    read: &R,
    id: u64,
    e: Seq<char>,
) -> bool {
    g.places.contains_key(id) && unreadable(
        read,
        vector_at(g.places[id] as nat, g.dims as nat) as u64,
        vector_len(g.dims as nat) as usize,
        e,
    )
}

/// The vector of one of the candidates may not be readable, for this reason.
pub open spec fn rerank_fails<R: Fn(u64, usize) -> Result<Vec<u8>, String>>(
    g: DiskView,
    read: &R,
    candidates: Seq<u64>,
    e: Seq<char>,
) -> bool {
    exists|i: int| 0 <= i < candidates.len() && vector_fails(g, read, #[trigger] candidates[i], e)
}

/// The field of a search by codes.
pub open spec fn disk_field<
    R: Fn(u64, usize) -> Result<Vec<u8>, String>,
    D: Fn(u64) -> u32,
>(g: DiskView, read: &R, dist: D) -> Field {
    Field {
        rank: measure::ranks(dist),
        live: g.places.dom(),
        edges: |id: u64| disk_edges(g, read, id),
        seeds: seq![g.medoid_id],
    }
}

/// The `k` candidates that a search by codes finds, the nearest first: one that expands
/// no nodes finds the node in the middle.
pub open spec fn coarse(g: DiskView, f: Field, k: nat) -> Seq<u64> {
    walk::found_by(f, disk_pace(g, k))
}

/// A search for no candidates looks for one.
pub open spec fn at_least_one(k: nat) -> nat {
    if k == 0 {
        1
    } else {
        k
    }
}

/// How many candidates are ranked exactly.
pub open spec fn rerank_count(g: DiskView, k: usize) -> nat {
    if k * g.config.rerank_factor >= k {
        (k * g.config.rerank_factor) as nat
    } else {
        k as nat
    }
}

/// The pair is one of the candidates with its place.
pub open spec fn is_placed(g: DiskView, candidates: Seq<u64>, p: (u64, u64)) -> bool {
    candidates.contains(p.0) && g.places.contains_key(p.0) && p.1 == g.places[p.0]
}

/// The candidates that have a place, each with its place.
pub open spec fn with_places(places: Map<u64, usize>, ids: Seq<u64>) -> Seq<(u64, u64)>
    decreases ids.len(),
{
    if ids.len() == 0 {
        Seq::empty()
    } else {
        let rest = with_places(places, ids.drop_last());
        if places.contains_key(ids.last()) {
            rest.push((ids.last(), places[ids.last()] as u64))
        } else {
            rest
        }
    }
}

/// The vector of the node at a place, as it stands in the file.
pub open spec fn stored_vector<R: Fn(u64, usize) -> Result<Vec<u8>, String>>(
    g: DiskView,
    read: &R,
    place: u64,
) -> Seq<u8> {
    read_bytes(
        read,
        vector_at(place as nat, g.dims as nat) as u64,
        vector_len(g.dims as nat) as usize,
    ).skip(8)
}

/// The caller can say for each vector how far it is from the query, and always
/// says the same.
pub open spec fn compares<X: Fn(Vec<u8>) -> u32>(exact: X) -> bool {
    &&& forall|v: Vec<u8>| #[trigger] call_requires(exact, (v,))
    &&& forall|v: Vec<u8>, w: Vec<u8>, a: u32, b: u32| #[trigger]
        call_ensures(exact, (v,), a) && #[trigger] call_ensures(exact, (w,), b) && v@ == w@ ==> a
            == b
}

/// The rank of a vector's distance from the query.
pub open spec fn exact_rank<X: Fn(Vec<u8>) -> u32>(exact: X, v: Seq<u8>) -> u32 {
    choose|r: u32| says(exact, v, r)
}

/// Asked for the rank of a vector's distance, the caller may say this.
pub open spec fn says<X: Fn(Vec<u8>) -> u32>(exact: X, v: Seq<u8>, r: u32) -> bool {
    exists|w: Vec<u8>| w@ == v && #[trigger] call_ensures(exact, (w,), r)
}

/// The nodes with the exact ranks of their distances.
pub open spec fn scored<
    R: Fn(u64, usize) -> Result<Vec<u8>, String>,
    X: Fn(Vec<u8>) -> u32,
>(g: DiskView, read: &R, exact: X, v: Seq<(u64, u64)>) -> Seq<(u64, u64)> {
    Seq::new(
        v.len(),
        |i: int| (v[i].0, exact_rank(exact, stored_vector(g, read, v[i].1)) as u64),
    )
}

/// The best `k` of the candidates by their full vectors; of those at one
/// distance the one that stands first in the file.
pub open spec fn reranked<
    R: Fn(u64, usize) -> Result<Vec<u8>, String>,
    X: Fn(Vec<u8>) -> u32,
>(g: DiskView, read: &R, exact: X, candidates: Seq<u64>, k: usize) -> Seq<(u64, u64)> {
    let all = order::in_order(scored(g, read, exact, order::in_order(with_places(g.places, candidates))));
    all.take(hnsw::lesser(k as int, all.len() as int))
}

/// Pairs with their second numbers cut short.
pub open spec fn short(v: Seq<(u64, u64)>) -> Seq<(u64, u32)> {
    Seq::new(v.len(), |i: int| (v[i].0, v[i].1 as u32))
}

fn ask_exact<X: Fn(Vec<u8>) -> u32>(exact: &X, v: Vec<u8>) -> (r: u32)
    requires
        compares(*exact),
    ensures
        r == exact_rank(*exact, v@),
{
    let ghost w = v;
    let r: u32 = exact(v);
    proof {
        assert(call_ensures(*exact, (w,), r));
        assert(says(*exact, w@, r));
        let s = exact_rank(*exact, w@);
        let u = choose|u: Vec<u8>| u@ == w@ && #[trigger] call_ensures(*exact, (u,), s);
        assert(call_ensures(*exact, (u,), s));
    }
    r
}

/// The index over nodes that were just written to disk, in the order of
/// `all_ids`.
pub fn assemble(
    config: VamanaConfig,
    all_ids: &[u64],
    codes: &[Vec<u8>],
    medoid_id: u64,
    dims: u32,
) -> (r: VamanaDiskIndex)
    requires
        all_ids@.len() == codes@.len(),
    ensures
        r@ == built(config, all_ids@, codes@, medoid_id, dims),
        r.wf(),
{
    let n: usize = all_ids.len();
    let mut pq_codes: Vec<u8> = Vec::new();
    let mut node_pos: HashMap<u64, usize> = HashMap::new();
    let mut i: usize = 0;
    assert(all_ids@.take(0) =~= Seq::empty());
    while i < n
        invariant
            i <= n,
            n == all_ids@.len(),
            n == codes@.len(),
            pq_codes@ == joined(codes@, i as nat),
            node_pos@ == places_of(all_ids@.take(i as int)),
        decreases n - i,
    {
        append_bytes(&mut pq_codes, codes[i].as_slice());
        node_pos.insert(all_ids[i], i);
        assert(all_ids@.take(i + 1).drop_last() =~= all_ids@.take(i as int));
        i = i + 1;
    }
    proof {
        assert(all_ids@.take(i as int) =~= all_ids@);
        assert forall|id: u64| #[trigger] places_of(all_ids@).contains_key(id) implies places_of(
            all_ids@,
        )[id] < n by {
            lemma_places_of(all_ids@, id);
        }
    }
    VamanaDiskIndex {
        config,
        pq_codes,
        node_pos,
        medoid_id,
        num_points: n,
        dims,
        max_degree: config.r as u32,
        m: config.pq_subspaces,
        nodes: n,
    }
}

/// Places are below the number of nodes.
proof fn lemma_places_of(ids: Seq<u64>, id: u64)
    requires
        ids.len() <= usize::MAX,
        places_of(ids).contains_key(id),
    ensures
        places_of(ids)[id] < ids.len(),
    decreases ids.len(),
{
    if ids.len() > 0 && id != ids.last() {
        lemma_places_of(ids.drop_last(), id);
    }
}

proof fn lemma_places_in(b: Seq<u8>, n: nat, m: nat, id: u64)
    requires
        n <= usize::MAX,
        places_in(b, n, m).contains_key(id),
    ensures
        places_in(b, n, m)[id] < n,
    decreases n,
{
    if n > 0 && id != code_id(b, n - 1, m) {
        lemma_places_in(b, (n - 1) as nat, m, id);
    }
}

proof fn lemma_same_items(a: Seq<(u64, u64)>, b: Seq<(u64, u64)>)
    requires
        a.to_multiset() == b.to_multiset(),
    ensures
        forall|k: int| 0 <= k < a.len() ==> b.contains(#[trigger] a[k]),
{
    broadcast use vstd::seq_lib::group_to_multiset_ensures;

    assert forall|k: int| 0 <= k < a.len() implies b.contains(#[trigger] a[k]) by {
        assert(a.contains(a[k]));
        assert(b.to_multiset().count(a[k]) > 0);
    }
}

proof fn lemma_place_of(ids: Seq<u64>, i: int)
    requires
        0 <= i < ids.len() <= usize::MAX,
        ids.no_duplicates(),
    ensures
        places_of(ids).contains_key(ids[i]),
        places_of(ids)[ids[i]] == i,
    decreases ids.len(),
{
    if i < ids.len() - 1 {
        assert(ids.drop_last()[i] == ids[i]);
        lemma_place_of(ids.drop_last(), i);
    }
}

/// Where the graph file is read that was written of a graph, the edges that a
/// search follows are those of the graph, as many as there is room for.
pub proof fn lemma_disk_edges<R: Fn(u64, usize) -> Result<Vec<u8>, String>>(
    g: DiskView,
    read: &R,
    ids: Seq<u64>,
    adj: Map<u64, Seq<u64>>,
    h: GraphHeader,
    i: int,
)
    requires
        0 <= i < ids.len() <= usize::MAX,
        ids.no_duplicates(),
        g.places == places_of(ids),
        addressable(g),
        g.nodes == ids.len(),
        !vamana::edges_of(adj, ids[i]).contains(NO_NODE),
        forall|at: u64, len: usize|
            at + len <= (header_bytes(h) + records_bytes(ids, adj, g.max_degree as nat)).len()
                ==> #[trigger] read_bytes(read, at, len) == (header_bytes(h) + records_bytes(
                ids,
                adj,
                g.max_degree as nat,
            )).subrange(at as int, at + len),
    ensures
        disk_edges(g, read, ids[i]) == stored(
            vamana::edges_of(adj, ids[i]),
            g.max_degree as nat,
        ),
{
    let degree = g.max_degree as nat;
    let l = record_len(degree) as int;
    let n = ids.len() as int;
    lemma_place_of(ids, i);
    lemma_record_at(ids, adj, h, degree, i);
    lemma_record_round_trip(ids[i], vamana::edges_of(adj, ids[i]), degree);
    assert(i * l <= n * l) by (nonlinear_arith)
        requires
            0 <= i <= n,
            l >= 0,
    ;
    let at = record_at(i as nat, degree) as u64;
    assert(read_bytes(read, at, l as usize) == record_bytes(
        ids[i],
        vamana::edges_of(adj, ids[i]),
        degree,
    ));
}

impl VamanaDiskIndex {
    /// Each node's place is one of those in the files.
    pub open spec fn wf(&self) -> bool {
        forall|id: u64| #[trigger]
            self@.places.contains_key(id) ==> self@.places[id] < self@.nodes
    }

    /// The index whose graph file has this header and whose code file has these
    /// bytes; the codes are `m` bytes long.
    pub fn open(config: VamanaConfig, header: GraphHeader, m: usize, code_file: &[u8]) -> (r:
        Result<Self, IndexError>)
        ensures
            r is Ok <==> has_codes(code_file@, m as nat),
            r matches Ok(x) ==> x@ == opened(config, header, code_file@, m) && x.wf(),
            r matches Err(e) ==> if code_file@.len() >= 12 && code_len(code_file@) != m {
                e matches IndexError::Other(t) && t@ == mismatch_message(
                    code_len(code_file@),
                    m as nat,
                )
            } else {
                e matches IndexError::Io(t) && t@ == "failed to fill whole buffer"@
            },
    {
        match load_pq_codes(code_file, m) {
            Ok((pq_codes, node_pos)) => {
                let n: u64 = read_le_u64(code_file, 0);
                let len: usize = code_file.len();
                proof {
                    assert(n <= n * (8 + m)) by (nonlinear_arith);
                    assert forall|id: u64| #[trigger]
                        node_pos@.contains_key(id) implies node_pos@[id] < n by {
                        lemma_places_in(code_file@, n as nat, m as nat, id);
                    }
                }
                Ok(VamanaDiskIndex {
                    config,
                    pq_codes,
                    node_pos,
                    medoid_id: header.medoid_id,
                    num_points: header.num_points as usize,
                    dims: header.dims,
                    max_degree: header.max_degree,
                    m,
                    nodes: n as usize,
                })
            },
            Err(e) => Err(e),
        }
    }

    /// The code of a node.
    pub fn code(&self, id: u64) -> (r: Option<Vec<u8>>)
        ensures
            r matches Some(c) ==> self@.places.contains_key(id) && c@ == self@.codes.subrange(
                self@.places[id] * self@.m,
                (self@.places[id] + 1) * self@.m,
            ),
            r is Some <==> self@.places.contains_key(id) && (self@.places[id] + 1) * self@.m
                <= self@.codes.len(),
    {
        let pos: usize = match self.node_pos.get(&id) {
            Some(p) => *p,
            None => return None,
        };
        let m: usize = self.m;
        proof {
            assert((pos + 1) * m == pos * m + m && 0 <= pos * m) by (nonlinear_arith);
        }
        let len: usize = self.pq_codes.len();
        if pos == usize::MAX {
            if m == 0 {
                assert((pos + 1) * 0 == 0 && pos * 0 == 0) by (nonlinear_arith);
                let c: Vec<u8> = Vec::new();
                assert(c@ =~= self@.codes.subrange(0, 0));
                return Some(c);
            }
            assert((pos + 1) * m >= pos + 1) by (nonlinear_arith)
                requires
                    m >= 1,
            ;
            return None;
        }
        match (pos + 1).checked_mul(m) {
            Some(end) => if end <= len {
                Some(copy_range(self.pq_codes.as_slice(), end - m, end))
            } else {
                None
            },
            None => None,
        }
    }

    /// Whether the files' offsets and the lengths of their records can be
    /// written as numbers.
    pub fn is_addressable(&self) -> (r: bool)
        ensures
            r == addressable(self@),
    {
        let record: u128 = 12 + 8 * (self.max_degree as u128);
        let vector: u128 = 8 + 4 * (self.dims as u128);
        let n: u128 = self.nodes as u128;
        assert(n * record <= 0x1_0000_0000_0000_0000 * 0x10_0000_0000) by (nonlinear_arith)
            requires
                0 <= n <= 0x1_0000_0000_0000_0000,
                0 <= record <= 0x10_0000_0000,
        ;
        assert(n * vector <= 0x1_0000_0000_0000_0000 * 0x10_0000_0000) by (nonlinear_arith)
            requires
                0 <= n <= 0x1_0000_0000_0000_0000,
                0 <= vector <= 0x10_0000_0000,
        ;
        record <= usize::MAX as u128 && vector <= usize::MAX as u128 && n * record + 28
            <= u64::MAX as u128 && n * vector <= u64::MAX as u128
    }

    /// The neighbours of a node, as its record says.
    fn read_neighbours_at<R: Fn(u64, usize) -> Result<Vec<u8>, String>>(&self, read: &R, id: u64)
        -> (r: Result<Vec<u64>, String>)
        requires
            reads(read),
            self.wf(),
            addressable(self@),
        ensures
            r matches Ok(v) ==> v@ == disk_edges(self@, read, id) && record_is_there(
                self@,
                read,
                id,
            ),
            r matches Err(e) ==> record_fails(self@, read, id, e@),
    {
        let pos: usize = match self.node_pos.get(&id) {
            Some(p) => *p,
            None => return Ok(Vec::new()),
        };
        let record: u64 = 12 + 8 * (self.max_degree as u64);
        proof {
            assert(self@.places.contains_key(id));
            let n = self.nodes as int;
            assert(pos * record <= n * record) by (nonlinear_arith)
                requires
                    0 <= pos <= n,
                    record >= 0,
            ;
        }
        let at: u64 = 28 + (pos as u64) * record;
        match read_from(read, at, record as usize) {
            Ok(b) => Ok(read_neighbours(b.as_slice(), self.max_degree)),
            Err(e) => Err(e),
        }
    }

    /// The neighbours of several nodes, as their records say.
    fn read_all<R: Fn(u64, usize) -> Result<Vec<u8>, String>>(&self, read: &R, ids: Vec<u64>)
        -> (r: Result<Vec<Vec<u64>>, String>)
        requires
            reads(read),
            self.wf(),
            addressable(self@),
        ensures
            r matches Ok(v) ==> v@.len() == ids@.len() && forall|i: int|
                0 <= i < ids@.len() ==> (#[trigger] v@[i])@ == disk_edges(self@, read, ids@[i])
                    && record_is_there(self@, read, ids@[i]),
            r matches Err(e) ==> some_fails(self@, read, ids@, e@),
    {
        let mut out: Vec<Vec<u64>> = Vec::new();
        let mut i: usize = 0;
        while i < ids.len()
            invariant
                i <= ids@.len(),
                reads(read),
                self.wf(),
                addressable(self@),
                out@.len() == i,
                forall|k: int|
                    0 <= k < i ==> (#[trigger] out@[k])@ == disk_edges(self@, read, ids@[k])
                        && record_is_there(self@, read, ids@[k]),
            decreases ids@.len() - i,
        {
            match self.read_neighbours_at(read, ids[i]) {
                Ok(v) => out.push(v),
                Err(e) => {
                    assert(record_fails(self@, read, ids@[i as int], e@));
                    return Err(e);
                },
            }
            i = i + 1;
        }
        Ok(out)
    }

    /// The `rerank_k` candidates nearest to the query by their codes, found by
    /// way of the graph file.
    pub fn beam_search_coarse<
        R: Fn(u64, usize) -> Result<Vec<u8>, String>,
        D: Fn(u64) -> u32,
    >(&self, read: &R, dist: &D, rerank_k: usize) -> (r: Result<Vec<u64>, String>)
        requires
            reads(read),
            measure::measures(*dist),
            self.wf(),
            addressable(self@),
        ensures
            ({
                let f = disk_field(self@, read, *dist);
                let n = at_least_one(rerank_k as nat);
                match r {
                    Ok(v) => v@ == coarse(self@, f, n) && records_are_there(self@, read, f, n),
                    Err(e) => coarse_fails(self@, read, f, n, e@),
                }
            }),
    {
        let wanted: usize = if rerank_k == 0 {
            1
        } else {
            rerank_k
        };
        let width: usize = self.config.beam_width;
        proof {
            measure::lemma_gauges(*dist);
        }
        let ghost f = disk_field(self@, read, *dist);
        let live = |id: u64| -> (r: bool)
            ensures
                r == self@.places.contains_key(id),
            { self.node_pos.contains_key(&id) };
        let place = |id: u64| -> (r: usize)
            ensures
                r == place_of(self@, id),
            {
                match self.node_pos.get(&id) {
                    Some(p) => *p,
                    None => 0,
                }
            };
        let edges = |ids: Vec<u64>| -> (r: Result<Vec<Vec<u64>>, String>)
            requires
                reads(read),
                self.wf(),
                addressable(self@),
            ensures
                r matches Ok(v) ==> v@.len() == ids@.len() && forall|i: int|
                    0 <= i < ids@.len() ==> (#[trigger] v@[i])@ == disk_edges(
                        self@,
                        read,
                        ids@[i],
                    ) && record_is_there(self@, read, ids@[i]),
                r matches Err(e) ==> some_fails(self@, read, ids@, e@),
            { self.read_all(read, ids) };
        proof {
            assert(f.live.finite());
            assert(beam::describes_batches(*dist, live, edges, f)) by {
                assert forall|b: Vec<u64>, v: Vec<Vec<u64>>| #[trigger]
                    call_ensures(edges, (b,), Ok::<Vec<Vec<u64>>, String>(v)) implies beam::answers(
                    f,
                    b@,
                    v@,
                ) by {}
            }
        }
        let ghost p = disk_pace(self@, wanted as nat);
        assert(beam::gives_places(place, p.place));
        let r = beam::search_batched(
            dist,
            &live,
            &edges,
            &place,
            self.medoid_id,
            width,
            wanted,
            Ghost(f),
            Ghost(p.place),
        );
        proof {
            let n = wanted as nat;
            if r is Ok {
                assert forall|ids: Seq<u64>, i: int|
                    #![trigger disk_expands(self@, f, n, ids), ids[i]]
                    disk_expands(self@, f, n, ids) && 0 <= i < ids.len() implies record_is_there(
                    self@,
                    read,
                    ids[i],
                ) by {
                    assert(beam::is_told(edges, ids));
                    let (b, l) = choose|b: Vec<u64>, l: Vec<Vec<u64>>| #[trigger]
                        call_ensures(edges, (b,), Ok::<Vec<Vec<u64>>, String>(l)) && b@ == ids;
                    assert(l@[i]@ == disk_edges(self@, read, b@[i]));
                }
            } else {
                let e = r->Err_0;
                let ids = choose|ids: Seq<u64>| #[trigger]
                    walk::expands(f, walk::started(f, n), p, ids) && beam::refuses(edges, ids, e);
                assert(disk_expands(self@, f, n, ids));
                let b = choose|b: Vec<u64>| #[trigger]
                    call_ensures(edges, (b,), Err::<Vec<Vec<u64>>, String>(e)) && b@ == ids;
                assert(some_fails(self@, read, b@, e@));
            }
        }
        r
    }

    /// The best `k` of the candidates by their vectors in the vector file.
    pub fn rerank<R: Fn(u64, usize) -> Result<Vec<u8>, String>, X: Fn(Vec<u8>) -> u32>(
        &self,
        read: &R,
        exact: &X,
        candidates: &[u64],
        k: usize,
    ) -> (r: Result<Vec<(u64, u32)>, String>)
        requires
            reads(read),
            compares(*exact),
            self.wf(),
            addressable(self@),
        ensures
            r matches Ok(v) ==> v@ == short(reranked(self@, read, *exact, candidates@, k))
                && vectors_are_there(self@, read, candidates@),
            r matches Err(e) ==> rerank_fails(self@, read, candidates@, e@),
    {
        let mut found: Vec<(u64, u64)> = Vec::new();
        let mut i: usize = 0;
        assert(candidates@.take(0) =~= Seq::empty());
        while i < candidates.len()
            invariant
                i <= candidates@.len(),
                found@ == with_places(self@.places, candidates@.take(i as int)),
                forall|j: int|
                    0 <= j < found@.len() ==> is_placed(self@, candidates@, #[trigger] found@[j]),
                forall|c: int|
                    0 <= c < i && self@.places.contains_key(#[trigger] candidates@[c])
                        ==> found@.contains((candidates@[c], self@.places[candidates@[c]] as u64)),
                self.wf(),
            decreases candidates@.len() - i,
        {
            let id: u64 = candidates[i];
            let ghost before = found@;
            assert(candidates@.take(i + 1).drop_last() =~= candidates@.take(i as int));
            match self.node_pos.get(&id) {
                Some(p) => {
                    assert(self@.places.contains_key(id));
                    assert(candidates@[i as int] == id);
                    found.push((id, *p as u64));
                    assert(found@[before.len() as int] == (id, self@.places[id] as u64));
                },
                None => {},
            }
            proof {
                assert forall|c: int|
                    0 <= c < i + 1 && self@.places.contains_key(
                        #[trigger] candidates@[c],
                    ) implies found@.contains(
                    (candidates@[c], self@.places[candidates@[c]] as u64),
                ) by {
                    if c < i {
                        let x = (candidates@[c], self@.places[candidates@[c]] as u64);
                        let q = choose|q: int| 0 <= q < before.len() && before[q] == x;
                        assert(found@[q] == x);
                    }
                }
            }
            i = i + 1;
        }
        assert(candidates@.take(i as int) =~= candidates@);
        let ghost all = found@;
        let placed = sort_pairs(found);
        proof {
            order::lemma_in_order(all);
            lemma_same_items(placed@, all);
            lemma_same_items(all, placed@);
            assert forall|q: int| 0 <= q < placed@.len() implies is_placed(
                self@,
                candidates@,
                #[trigger] placed@[q],
            ) by {
                assert(all.contains(placed@[q]));
            }
        }
        let record: u64 = 8 + 4 * (self.dims as u64);
        let mut seen: Vec<(u64, u64)> = Vec::new();
        let mut j: usize = 0;
        while j < placed.len()
            invariant
                j <= placed@.len(),
                reads(read),
                compares(*exact),
                addressable(self@),
                record == vector_len(self@.dims as nat),
                forall|q: int|
                    0 <= q < placed@.len() ==> is_placed(
                        self@,
                        candidates@,
                        #[trigger] placed@[q],
                    ),
                self.wf(),
                seen@ == scored(self@, read, *exact, placed@.take(j as int)),
                forall|q: int|
                    0 <= q < j ==> vector_is_there(self@, read, (#[trigger] placed@[q]).0),
            decreases placed@.len() - j,
        {
            let (id, pos): (u64, u64) = placed[j];
            proof {
                assert(is_placed(self@, candidates@, placed@[j as int]));
                let n = self@.nodes as int;
                assert(pos * record <= n * record) by (nonlinear_arith)
                    requires
                        0 <= pos <= n,
                        record >= 0,
                ;
            }
            let b = match read_from(read, pos * record, record as usize) {
                Ok(b) => b,
                Err(e) => {
                    assert(vector_fails(self@, read, id, e@));
                    return Err(e);
                },
            };
            let v = copy_range(b.as_slice(), 8, b.len());
            assert(v@ =~= stored_vector(self@, read, pos));
            let rank: u32 = ask_exact(exact, v);
            seen.push((id, rank as u64));
            assert(seen@ =~= scored(self@, read, *exact, placed@.take(j + 1)));
            j = j + 1;
        }
        assert(placed@.take(j as int) =~= placed@);
        proof {
            assert forall|c: int| 0 <= c < candidates@.len() implies vector_is_there(
                self@,
                read,
                #[trigger] candidates@[c],
            ) by {
                if self@.places.contains_key(candidates@[c]) {
                    let x = (candidates@[c], self@.places[candidates@[c]] as u64);
                    assert(all.contains(x));
                    let a = choose|a: int| 0 <= a < all.len() && all[a] == x;
                    assert(placed@.contains(all[a]));
                    let q = choose|q: int| 0 <= q < placed@.len() && placed@[q] == x;
                    assert(vector_is_there(self@, read, placed@[q].0));
                }
            }
        }
        let sorted = sort_pairs(seen);
        let n: usize = if k <= sorted.len() {
            k
        } else {
            sorted.len()
        };
        let mut out: Vec<(u64, u32)> = Vec::new();
        let mut q: usize = 0;
        while q < n
            invariant
                q <= n <= sorted@.len(),
                out@ == short(sorted@.take(q as int)),
            decreases n - q,
        {
            out.push((sorted[q].0, sorted[q].1 as u32));
            assert(out@ =~= short(sorted@.take(q + 1)));
            q = q + 1;
        }
        Ok(out)
    }

    /// The `k` nodes nearest to a query of `len` numbers: candidates are found by
    /// their codes, and ranked by their vectors.
    pub fn search_knn<R, S, D, X>(
        &self,
        len: usize,
        graph: &R,
        vectors: &S,
        dist: &D,
        exact: &X,
        k: usize,
    ) -> (r: Result<Vec<(u64, u32)>, IndexError>) where
        R: Fn(u64, usize) -> Result<Vec<u8>, String>,
        S: Fn(u64, usize) -> Result<Vec<u8>, String>,
        D: Fn(u64) -> u32,
        X: Fn(Vec<u8>) -> u32,

        requires
            reads(graph),
            reads(vectors),
            measure::measures(*dist),
            compares(*exact),
            self.wf(),
            addressable(self@),
            k * self@.config.rerank_factor <= usize::MAX,
        ensures
            len != self@.dims ==> (r matches Err(IndexError::DimensionMismatch { expected, actual })
                && expected == self@.dims as usize && actual == len),
            len == self@.dims ==> ({
                let f = disk_field(self@, graph, *dist);
                let n = at_least_one(rerank_count(self@, k));
                let c = coarse(self@, f, n);
                match r {
                    Ok(v) => {
                        &&& v@ == short(reranked(self@, vectors, *exact, c, k))
                        &&& records_are_there(self@, graph, f, n)
                        &&& vectors_are_there(self@, vectors, c)
                    },
                    Err(e) => e matches IndexError::Io(m) && (coarse_fails(
                        self@,
                        graph,
                        f,
                        n,
                        m@,
                    ) || (records_are_there(self@, graph, f, n) && rerank_fails(
                        self@,
                        vectors,
                        c,
                        m@,
                    ))),
                }
            }),
    {
        if len as u64 != self.dims as u64 {
            return Err(
                IndexError::DimensionMismatch { expected: self.dims as usize, actual: len },
            );
        }
        let wide: usize = k * self.config.rerank_factor;
        let rerank_k: usize = if wide >= k {
            wide
        } else {
            k
        };
        let candidates = match self.beam_search_coarse(graph, dist, rerank_k) {
            Ok(c) => c,
            Err(e) => return Err(IndexError::Io(e)),
        };
        match self.rerank(vectors, exact, candidates.as_slice(), k) {
            Ok(v) => Ok(v),
            Err(e) => Err(IndexError::Io(e)),
        }
    }

    /// How many answers a search for all nodes in some distance asks for.
    pub fn range_count(&self) -> (r: usize)
        ensures
            r == if self@.num_points == 0 {
                1
            } else {
                self@.num_points
            },
    {
        if self.num_points == 0 {
            1
        } else {
            self.num_points
        }
    }

    /// No node can be added.
    pub fn insert(&self) -> (r: Result<(), IndexError>)
        ensures
            r matches Err(IndexError::Other(m)) && m@
                == "VamanaDiskIndex is built offline; use VamanaDiskIndex::build()"@,
    {
        Err(
            IndexError::Other(
                "VamanaDiskIndex is built offline; use VamanaDiskIndex::build()".to_owned(),
            ),
        )
    }

    /// No node can be deleted.
    pub fn delete(&self) -> (r: Result<(), IndexError>)
        ensures
            r matches Err(IndexError::Other(m)) && m@
                == "VamanaDiskIndex does not support online deletion"@,
    {
        Err(IndexError::Other("VamanaDiskIndex does not support online deletion".to_owned()))
    }

    /// How many bytes are kept in memory: the codes, the places, and what the
    /// codes were made with.
    pub fn in_memory_bytes(&self, codebook: usize) -> (r: usize)
        requires
            self@.codes.len() + self@.places.len() * (8 + vstd::layout::size_of::<usize>())
                + codebook <= usize::MAX,
        ensures
            r == self@.codes.len() + self@.places.len() * (8 + vstd::layout::size_of::<usize>())
                + codebook,
    {
        let word: usize = std::mem::size_of::<usize>();
        let n: usize = self.node_pos.len();
        proof {
            let each = 8 + word;
            assert(n * each <= usize::MAX);
            assert(each <= usize::MAX || n * each >= each) by (nonlinear_arith)
                requires
                    n >= 1 || each <= usize::MAX,
                    each >= 0,
            ;
        }
        let codes: usize = self.pq_codes.len();
        codes + n * (8 + word) + codebook
    }

    /// What the index tells of itself.
    pub fn stats(&self, codebook: usize) -> (r: AnnIndexStats)
        requires
            self@.codes.len() + self@.places.len() * (8 + vstd::layout::size_of::<usize>())
                + codebook <= usize::MAX,
        ensures
            r.memory_bytes == self@.codes.len() + self@.places.len() * (8
                + vstd::layout::size_of::<usize>()) + codebook,
            r.num_vectors == self@.num_points,
            r.index_type@ == "vamana-disk"@,
    {
        AnnIndexStats {
            memory_bytes: self.in_memory_bytes(codebook),
            num_vectors: self.num_points,
            index_type: "vamana-disk".to_owned(),
        }
    }
}

} // verus!
