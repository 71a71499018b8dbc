//! Byte strings: the lexicographic order of keys, and fixed-width integers
//! laid out in little- and big-endian order.
use vstd::prelude::*;

verus! {

/// `a` comes strictly before `b` in the order of byte strings: at the first
/// place where they differ `a` holds the smaller byte, or `a` is a proper
/// prefix of `b`.
pub open spec fn lex_lt(a: Seq<u8>, b: Seq<u8>) -> bool
    decreases a.len(),
{
    if b.len() == 0 {
        false
    } else if a.len() == 0 {
        true
    } else if a[0] != b[0] {
        a[0] < b[0]
    } else {
        lex_lt(a.drop_first(), b.drop_first())
    }
}

/// No byte string comes before itself.
pub proof fn lemma_lex_irreflexive(a: Seq<u8>)
    ensures
        !lex_lt(a, a),
    decreases a.len(),
{
    if a.len() > 0 {
        lemma_lex_irreflexive(a.drop_first());
    }
}

/// The order of byte strings is transitive.
pub proof fn lemma_lex_transitive(a: Seq<u8>, b: Seq<u8>, c: Seq<u8>)
    requires
        lex_lt(a, b),
        lex_lt(b, c),
    ensures
        lex_lt(a, c),
    decreases a.len(),
{
    if a.len() > 0 && a[0] == b[0] && b[0] == c[0] {
        lemma_lex_transitive(a.drop_first(), b.drop_first(), c.drop_first());
    }
}

/// Of two byte strings, one comes first or they are equal.
pub proof fn lemma_lex_total(a: Seq<u8>, b: Seq<u8>)
    ensures
        a == b || lex_lt(a, b) || lex_lt(b, a),
    decreases a.len(),
{
    if a.len() > 0 && b.len() > 0 && a[0] == b[0] {
        lemma_lex_total(a.drop_first(), b.drop_first());
        if a.drop_first() == b.drop_first() {
            assert(a =~= seq![a[0]] + a.drop_first());
            assert(b =~= seq![b[0]] + b.drop_first());
        }
    } else if a.len() == 0 && b.len() == 0 {
        assert(a =~= b);
    }
}

/// Two byte strings do not come before each other.
pub proof fn lemma_lex_asymmetric(a: Seq<u8>, b: Seq<u8>)
    requires
        lex_lt(a, b),
    ensures
        !lex_lt(b, a),
        a != b,
{
    lemma_lex_irreflexive(a);
    if lex_lt(b, a) {
        lemma_lex_transitive(a, b, a);
    }
}

/// How many bytes two byte strings begin with in common.
pub fn common_len(a: &[u8], b: &[u8]) -> (r: usize)
    ensures
        r <= a@.len(),
        r <= b@.len(),
        a@.take(r as int) == b@.take(r as int),
        r < a@.len() && r < b@.len() ==> a@[r as int] != b@[r as int],
        lex_lt(a@, b@) == lex_lt(a@.skip(r as int), b@.skip(r as int)),
{
    let mut i: usize = 0;
    assert(a@.skip(0) =~= a@);
    assert(b@.skip(0) =~= b@);
    while i < a.len() && i < b.len() && a[i] == b[i]
        invariant
            i <= a@.len(),
            i <= b@.len(),
            forall|j: int| 0 <= j < i ==> a@[j] == b@[j],
            lex_lt(a@, b@) == lex_lt(a@.skip(i as int), b@.skip(i as int)),
        decreases a@.len() - i,
    {
        assert(a@.skip(i as int).drop_first() =~= a@.skip(i + 1));
        assert(b@.skip(i as int).drop_first() =~= b@.skip(i + 1));
        i = i + 1;
    }
    assert(a@.take(i as int) =~= b@.take(i as int));
    i
}

/// Whether `a` comes strictly before `b`.
pub fn bytes_lt(a: &[u8], b: &[u8]) -> (r: bool)
    ensures
        r == lex_lt(a@, b@),
{
    let i: usize = common_len(a, b);
    if i < a.len() && i < b.len() {
        a[i] < b[i]
    } else {
        i < b.len()
    }
}

/// Whether two byte strings are equal.
pub fn bytes_eq(a: &[u8], b: &[u8]) -> (r: bool)
    ensures
        r == (a@ == b@),
{
    if a.len() != b.len() {
        return false;
    }
    let mut i: usize = 0;
    while i < a.len()
        invariant
            a@.len() == b@.len(),
            i <= a@.len(),
            forall|j: int| 0 <= j < i ==> a@[j] == b@[j],
        decreases a@.len() - i,
    {
        if a[i] != b[i] {
            return false;
        }
        i = i + 1;
    }
    assert(a@ =~= b@);
    true
}

/// An owned copy of a byte string.
pub fn copy_bytes(a: &[u8]) -> (r: Vec<u8>)
    ensures
        r@ == a@,
{
    let mut r: Vec<u8> = Vec::with_capacity(a.len());
    append_bytes(&mut r, a);
    assert(r@ =~= a@);
    r
}

/// An owned copy of the bytes from `from` up to, not including, `to`.
pub fn copy_range(a: &[u8], from: usize, to: usize) -> (r: Vec<u8>)
    requires
        from <= to <= a@.len(),
    ensures
        r@ == a@.subrange(from as int, to as int),
{
    let part = vstd::slice::slice_subrange(a, from, to);
    copy_bytes(part)
}

/// Appends `a` to the end of `out`.
pub fn append_bytes(out: &mut Vec<u8>, a: &[u8])
    ensures
        final(out)@ == old(out)@ + a@,
{
    let mut i: usize = 0;
    while i < a.len()
        invariant
            i <= a@.len(),
            out@ == old(out)@ + a@.take(i as int),
        decreases a@.len() - i,
    {
        out.push(a[i]);
        assert(a@.take(i + 1) =~= a@.take(i as int).push(a@[i as int]));
        i = i + 1;
    }
    assert(a@.take(i as int) =~= a@);
}

/// An owned copy of an optional byte string.
pub fn copy_value(v: &Option<Vec<u8>>) -> (r: Option<Vec<u8>>)
    ensures
        value_view(r) == value_view(*v),
{
    match v {
        Some(b) => Some(copy_bytes(b.as_slice())),
        None => None,
    }
}

/// A stored value as a mathematical value: `None` stands for a deletion.
pub open spec fn value_view(v: Option<Vec<u8>>) -> Option<Seq<u8>> {
    match v {
        Some(b) => Some(b@),
        None => None,
    }
}

/// A list of byte strings as a sequence of sequences.
pub open spec fn views(v: Seq<Vec<u8>>) -> Seq<Seq<u8>> {
    v.map_values(|b: Vec<u8>| b@)
}

/// Whether `a` starts with `prefix`.
pub fn starts_with(a: &[u8], prefix: &[u8]) -> (r: bool)
    ensures
        r == prefix@.is_prefix_of(a@),
{
    if a.len() < prefix.len() {
        return false;
    }
    let head = vstd::slice::slice_subrange(a, 0, prefix.len());
    let r = bytes_eq(head, prefix);
    assert(r ==> forall|i: int| 0 <= i < prefix@.len() ==> a@[i] == head@[i]);
    r
}

// ----------------------------------------------------------------------
// Fixed-width integers
// ----------------------------------------------------------------------
/// The low `n` bytes of `x`, least significant first.
pub open spec fn le_bytes(x: nat, n: nat) -> Seq<u8>
    decreases n,
{
    if n == 0 {
        Seq::empty()
    } else {
        seq![(x % 256) as u8] + le_bytes(x / 256, (n - 1) as nat)
    }
}

/// The number whose bytes, least significant first, are `b`.
pub open spec fn le_value(b: Seq<u8>) -> nat
    decreases b.len(),
{
    if b.len() == 0 {
        0
    } else {
        b[0] as nat + 256 * le_value(b.drop_first())
    }
}

/// 256 to the power of `n`.
pub open spec fn pow256(n: nat) -> nat
    decreases n,
{
    if n == 0 {
        1
    } else {
        256 * pow256((n - 1) as nat)
    }
}

/// `le_bytes` writes exactly `n` bytes.
pub broadcast proof fn lemma_le_bytes_len(x: nat, n: nat)
    ensures
        #[trigger] le_bytes(x, n).len() == n,
    decreases n,
{
    if n > 0 {
        lemma_le_bytes_len(x / 256, (n - 1) as nat);
    }
}

/// Reading back what was written gives the number, when it fits.
pub proof fn lemma_le_round_trip(x: nat, n: nat)
    requires
        x < pow256(n),
    ensures
        le_value(le_bytes(x, n)) == x,
    decreases n,
{
    if n > 0 {
        assert(x / 256 < pow256((n - 1) as nat));
        lemma_le_round_trip(x / 256, (n - 1) as nat);
        assert(le_bytes(x, n).drop_first() =~= le_bytes(x / 256, (n - 1) as nat));
    }
}

/// `n` bytes hold a number below `256^n`.
pub proof fn lemma_le_value_bound(b: Seq<u8>)
    ensures
        le_value(b) < pow256(b.len()),
    decreases b.len(),
{
    if b.len() > 0 {
        lemma_le_value_bound(b.drop_first());
    }
}

/// Writing back what was read gives the bytes.
pub proof fn lemma_le_bytes_of_value(b: Seq<u8>)
    ensures
        le_bytes(le_value(b), b.len()) == b,
    decreases b.len(),
{
    if b.len() > 0 {
        let rest = b.drop_first();
        lemma_le_bytes_of_value(rest);
        assert(le_value(b) % 256 == b[0] as nat);
        assert(le_value(b) / 256 == le_value(rest));
        assert(b =~= seq![b[0]] + rest);
    } else {
        assert(b =~= Seq::empty());
    }
}

/// The sizes that four and eight bytes hold.
pub proof fn lemma_pow256()
    ensures
        pow256(4) == 0x1_0000_0000,
        pow256(8) == 0x1_0000_0000_0000_0000,
{
    reveal_with_fuel(pow256, 9);
}

/// Appends the low `n` bytes of `x`, least significant first.
pub fn push_le(out: &mut Vec<u8>, x: u64, n: usize)
    ensures
        final(out)@ == old(out)@ + le_bytes(x as nat, n as nat),
{
    let mut rest: u64 = x;
    let mut i: usize = 0;
    assert(out@ + le_bytes(rest as nat, n as nat) =~= old(out)@ + le_bytes(x as nat, n as nat));
    while i < n
        invariant
            i <= n,
            out@ + le_bytes(rest as nat, (n - i) as nat) == old(out)@ + le_bytes(
                x as nat,
                n as nat,
            ),
        decreases n - i,
    {
        let ghost before = out@;
        out.push((rest % 256) as u8);
        assert(before + le_bytes(rest as nat, (n - i) as nat) =~= out@ + le_bytes(
            (rest / 256) as nat,
            (n - i - 1) as nat,
        ));
        rest = rest / 256;
        i = i + 1;
    }
    assert(out@ + le_bytes(rest as nat, 0) =~= out@);
}

/// Reads four bytes at `at`, least significant first.
pub fn read_le_u32(b: &[u8], at: usize) -> (r: u32)
    requires
        at + 4 <= b@.len(),
    ensures
        r as nat == le_value(b@.subrange(at as int, at + 4)),
{
    let end: usize = b.len();
    assert(at + 4 <= end);
    let s = vstd::slice::slice_subrange(b, at, at + 4);
    proof {
        reveal_with_fuel(le_value, 5);
    }
    (s[0] as u32) + 256 * (s[1] as u32) + 65536 * (s[2] as u32) + 16777216 * (s[3] as u32)
}

/// Reads eight bytes at `at`, least significant first.
pub fn read_le_u64(b: &[u8], at: usize) -> (r: u64)
    requires
        at + 8 <= b@.len(),
    ensures
        r as nat == le_value(b@.subrange(at as int, at + 8)),
{
    let end: usize = b.len();
    assert(at + 8 <= end);
    let low = read_le_u32(b, at);
    let high = read_le_u32(b, at + 4);
    proof {
        let whole = b@.subrange(at as int, at + 8);
        lemma_le_value_split(b@.subrange(at as int, at + 4), b@.subrange(at + 4, at + 8));
        assert(whole =~= b@.subrange(at as int, at + 4) + b@.subrange(at + 4, at + 8));
        lemma_pow256();
    }
    (low as u64) + 0x1_0000_0000 * (high as u64)
}

/// The number read from two adjoining pieces.
pub proof fn lemma_le_value_split(a: Seq<u8>, b: Seq<u8>)
    ensures
        le_value(a + b) == le_value(a) + pow256(a.len()) * le_value(b),
    decreases a.len(),
{
    if a.len() == 0 {
        assert(a + b =~= b);
        assert(pow256(0) * le_value(b) == le_value(b)) by (nonlinear_arith)
            requires
                pow256(0) == 1,
        ;
    } else {
        lemma_le_value_split(a.drop_first(), b);
        assert((a + b).drop_first() =~= a.drop_first() + b);
        let p = pow256((a.len() - 1) as nat);
        let v = le_value(b);
        assert((256 * p) * v == 256 * (p * v)) by (nonlinear_arith);
    }
}

/// `b` read backwards, most significant byte first.
pub open spec fn be_bytes(x: nat, n: nat) -> Seq<u8> {
    le_bytes(x, n).reverse()
}

/// Appends the low `n` bytes of `x`, most significant first.
pub fn push_be(out: &mut Vec<u8>, x: u64, n: usize)
    ensures
        final(out)@ == old(out)@ + be_bytes(x as nat, n as nat),
{
    let mut tmp: Vec<u8> = Vec::new();
    push_le(&mut tmp, x, n);
    let ghost whole = le_bytes(x as nat, n as nat);
    assert(tmp@ =~= whole);
    proof {
        lemma_le_bytes_len(x as nat, n as nat);
    }
    let mut i: usize = n;
    assert(whole.reverse().take(0) =~= Seq::empty());
    while i > 0
        invariant
            i <= n,
            tmp@ == whole,
            whole.len() == n,
            out@ == old(out)@ + whole.reverse().take(n - i),
        decreases i,
    {
        i = i - 1;
        out.push(tmp[i]);
        assert(whole.reverse().take(n - i) =~= whole.reverse().take(n - i - 1).push(
            whole[i as int],
        ));
    }
    assert(whole.reverse().take(n as int) =~= whole.reverse());
}

/// Big-endian bytes determine the number they were written from.
pub proof fn lemma_be_injective(x: nat, y: nat, n: nat)
    requires
        x < pow256(n),
        y < pow256(n),
        be_bytes(x, n) == be_bytes(y, n),
    ensures
        x == y,
{
    lemma_le_bytes_len(x, n);
    lemma_le_bytes_len(y, n);
    assert(le_bytes(x, n) =~= be_bytes(x, n).reverse());
    assert(le_bytes(y, n) =~= be_bytes(y, n).reverse());
    lemma_le_round_trip(x, n);
    lemma_le_round_trip(y, n);
}

/// Where the first parts are equally long they decide, and the second parts only
/// where the first ones are the same.
pub proof fn lemma_lex_concat(a1: Seq<u8>, a2: Seq<u8>, b1: Seq<u8>, b2: Seq<u8>)
    requires
        a1.len() == b1.len(),
    ensures
        lex_lt(a1 + a2, b1 + b2) <==> lex_lt(a1, b1) || (a1 == b1 && lex_lt(a2, b2)),
    decreases a1.len(),
{
    let a = a1 + a2;
    let b = b1 + b2;
    if a1.len() == 0 {
        assert(a1 =~= b1);
        assert(a =~= a2 && b =~= b2);
    } else {
        assert(a[0] == a1[0] && b[0] == b1[0]);
        if a1[0] == b1[0] {
            let x = a1.drop_first();
            let y = b1.drop_first();
            lemma_lex_concat(x, a2, y, b2);
            assert(a.drop_first() =~= x + a2);
            assert(b.drop_first() =~= y + b2);
            if x == y {
                assert(a1 =~= seq![a1[0]] + x);
                assert(b1 =~= seq![b1[0]] + y);
            }
        }
    }
}

/// Numbers that are written most significant byte first are in the order of their
/// bytes.
pub proof fn lemma_be_ordered(x: nat, y: nat, n: nat)
    requires
        x < pow256(n),
        y < pow256(n),
    ensures
        lex_lt(be_bytes(x, n), be_bytes(y, n)) <==> x < y,
    decreases n,
{
    lemma_le_bytes_len(x, n);
    lemma_le_bytes_len(y, n);
    if n > 0 {
        let m = (n - 1) as nat;
        let (xh, yh) = (x / 256, y / 256);
        let (xl, yl) = (seq![(x % 256) as u8], seq![(y % 256) as u8]);
        lemma_le_bytes_len(xh, m);
        lemma_le_bytes_len(yh, m);
        assert(be_bytes(x, n) =~= be_bytes(xh, m) + xl);
        assert(be_bytes(y, n) =~= be_bytes(yh, m) + yl);
        assert(xh < pow256(m) && yh < pow256(m));
        lemma_be_ordered(xh, yh, m);
        lemma_lex_concat(be_bytes(xh, m), xl, be_bytes(yh, m), yl);
        assert(lex_lt(xl, yl) <==> x % 256 < y % 256) by {
            if x % 256 == y % 256 {
                assert(xl =~= yl);
                lemma_lex_irreflexive(xl);
            }
        }
        if be_bytes(xh, m) == be_bytes(yh, m) {
            lemma_be_injective(xh, yh, m);
        }
    }
}

} // verus!
