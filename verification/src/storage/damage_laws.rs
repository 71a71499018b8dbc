//! How files are laid out, what becomes of damaged ones, and what filters deny.
use crate::bytes;
use crate::checksum;
use crate::storage::bloom;
use crate::storage::wal;
use crate::storage::wal::RecordView;
use vstd::arithmetic::power;
use vstd::prelude::*;

verus! {

// ----------------------------------------------------------------------
// Numbers
// ----------------------------------------------------------------------
/// In the bytes of a number the least significant comes first.
pub proof fn lemma_least_significant_first(x: nat, n: nat, i: nat)
    requires
        i < n,
    ensures
        bytes::le_bytes(x, n).len() == n,
        bytes::le_bytes(x, n)[i as int] as int == (x as int / power::pow(256, i)) % 256,
    decreases n,
{
    broadcast use bytes::lemma_le_bytes_len;

    if i == 0 {
        power::lemma_pow0(256);
    } else {
        let j = (i - 1) as nat;
        lemma_least_significant_first(x / 256, (n - 1) as nat, j);
        assert(bytes::le_bytes(x, n)[i as int] == bytes::le_bytes(x / 256, (n - 1) as nat)[j as int]);
        power::lemma_pow_positive(256, j);
        assert(power::pow(256, i) == 256 * power::pow(256, j)) by {
            reveal(power::pow);
        }
        vstd::arithmetic::div_mod::lemma_div_denominator(x as int, 256, power::pow(256, j));
    }
}

// ----------------------------------------------------------------------
// The log
// ----------------------------------------------------------------------
/// A record of the log begins with its kind; behind the time and the lengths stand the
/// key and the value, and at its end the checksum of all that comes before it.
pub proof fn lemma_record_layout(r: RecordView)
    requires
        wal::fits(r),
    ensures
        ({
            let b = wal::record_bytes(r);
            let k = r.key.len() as int;
            let n = 25 + k + r.value.len();
            &&& b.len() == n
            &&& b[0] == if r.is_delete {
                1u8
            } else {
                0u8
            }
            &&& bytes::le_value(b.subrange(1, 9)) == r.ts.physical
            &&& bytes::le_value(b.subrange(9, 13)) == r.ts.logical
            &&& bytes::le_value(b.subrange(13, 17)) == r.key.len()
            &&& bytes::le_value(b.subrange(17, 21)) == r.value.len()
            &&& b.subrange(21, 21 + k) == r.key
            &&& b.subrange(21 + k, n - 4) == r.value
            &&& bytes::le_value(b.subrange(n - 4, n)) == checksum::crc32(b.take(n - 4))
        }),
{
    broadcast use bytes::lemma_le_bytes_len;

    let b = wal::record_bytes(r);
    let k = r.key.len() as int;
    let n = 25 + k + r.value.len();
    bytes::lemma_pow256();
    bytes::lemma_le_round_trip(r.ts.physical as nat, 8);
    bytes::lemma_le_round_trip(r.ts.logical as nat, 4);
    bytes::lemma_le_round_trip(r.key.len(), 4);
    bytes::lemma_le_round_trip(r.value.len(), 4);
    bytes::lemma_le_round_trip(checksum::crc32(wal::body_bytes(r)) as nat, 4);
    assert(b.subrange(1, 9) =~= bytes::le_bytes(r.ts.physical as nat, 8));
    assert(b.subrange(9, 13) =~= bytes::le_bytes(r.ts.logical as nat, 4));
    assert(b.subrange(13, 17) =~= bytes::le_bytes(r.key.len(), 4));
    assert(b.subrange(17, 21) =~= bytes::le_bytes(r.value.len(), 4));
    assert(b.subrange(21, 21 + k) =~= r.key);
    assert(b.subrange(21 + k, n - 4) =~= r.value);
    assert(b.take(n - 4) =~= wal::body_bytes(r));
    assert(b.subrange(n - 4, n) =~= bytes::le_bytes(
        checksum::crc32(wal::body_bytes(r)) as nat,
        4,
    ));
}

/// A record whose checksum is not that of its bytes is not recovered, nor is anything
/// behind it; what was logged before it is.
pub proof fn lemma_damage_is_noticed(rs: Seq<RecordView>, b: Seq<u8>)
    requires
        forall|i: int| 0 <= i < rs.len() ==> wal::fits(#[trigger] rs[i]),
        b.len() >= 21,
        ({
            let n = 25 + bytes::le_value(b.subrange(13, 17)) + bytes::le_value(b.subrange(17, 21));
            n <= b.len() && bytes::le_value(b.subrange(n - 4, n as int)) != checksum::crc32(
                b.take(n - 4),
            )
        }),
    ensures
        wal::recovered(wal::log_bytes(rs) + b) == rs,
        wal::recovered_len(wal::log_bytes(rs) + b) == wal::log_bytes(rs).len(),
{
    wal::lemma_recovery_of_log(rs, b);
    assert(!wal::whole_record(b));
    assert(rs + Seq::<RecordView>::empty() =~= rs);
}

// ----------------------------------------------------------------------
// Filters
// ----------------------------------------------------------------------
/// A filter denies a key one of whose bits none of its keys sets; and one without bits
/// denies every key.
pub proof fn lemma_filter_denies(
    bits: Seq<u8>,
    keys: Seq<Seq<u8>>,
    k: int,
    key: Seq<u8>,
    i: int,
)
    requires
        bloom::filter_of(bits, keys, k),
        0 <= i < k,
        bits.len() > 0 ==> forall|a: int, s: int|
            0 <= a < keys.len() && 0 <= s < k ==> #[trigger] bloom::slot(keys[a], s, bits.len())
                != bloom::slot(key, i, bits.len()),
    ensures
        !bloom::may_hold(bits, k, key),
{
    if bits.len() > 0 {
        let j = bloom::slot(key, i, bits.len());
        assert(0 <= j < bits.len() * 8);
        if bloom::bit_set(bits, j) {
            let a = choose|a: int|
                0 <= a < keys.len() && bloom::sets(#[trigger] keys[a], k, bits.len(), j);
            let s = choose|s: int| 0 <= s < k && #[trigger] bloom::slot(keys[a], s, bits.len()) == j;
            assert(false);
        }
    }
}

} // verus!
