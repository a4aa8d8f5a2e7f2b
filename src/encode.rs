//! The two binary strategy-table layouts: a 64-byte header, the sorted key
//! index, then one fixed-size record per key.
use vstd::prelude::*;
use vstd::arithmetic::power2::{pow2, lemma2_to64_rest};
use crate::ev::HoldEv;
use crate::paytable::MAX_PAYOUT;

verus! {

/// Length of every canonical key.
pub const KEY_LEN: usize = 10;

/// Relies on `slice::sort_unstable`: afterwards the vector holds the same
/// elements in ascending order.
#[verifier::external_body]
fn sort_ascending(v: &mut Vec<u128>)
    ensures
        final(v)@.to_multiset() == old(v)@.to_multiset(),
        forall|i: int, j: int| 0 <= i < j < final(v)@.len() ==> final(v)@[i] <= final(v)@[j],
{
    v.sort_unstable();
}

/// `k` padded with zero bytes (or cut) to `len` bytes.
pub open spec fn padded(k: Seq<u8>, len: nat) -> Seq<u8> {
    Seq::new(len, |i: int| if i < k.len() { k[i] } else { 0u8 })
}

/// `s` read as a big-endian number.
pub open spec fn be_num(s: Seq<u8>) -> int
    decreases s.len(),
{
    if s.len() == 0 {
        0
    } else {
        be_num(s.drop_last()) * 256 + s.last()
    }
}

pub open spec fn pow256(n: nat) -> int
    decreases n,
{
    if n == 0 {
        1
    } else {
        256 * pow256((n - 1) as nat)
    }
}

proof fn lemma_be_bound(s: Seq<u8>)
    ensures
        0 <= be_num(s) < pow256(s.len()),
    decreases s.len(),
{
    if s.len() > 0 {
        lemma_be_bound(s.drop_last());
        let a = be_num(s.drop_last());
        let b = s.last() as int;
        assert(a * 256 + b < 256 * pow256((s.len() - 1) as nat)) by (nonlinear_arith)
            requires 0 <= a < pow256((s.len() - 1) as nat), 0 <= b < 256;
        assert(a * 256 + b >= 0) by (nonlinear_arith)
            requires 0 <= a, 0 <= b;
    }
}

proof fn lemma_be_injective(a: Seq<u8>, b: Seq<u8>)
    requires
        a.len() == b.len(),
        be_num(a) == be_num(b),
    ensures
        a == b,
    decreases a.len(),
{
    if a.len() > 0 {
        let (x, y) = (be_num(a.drop_last()), be_num(b.drop_last()));
        let (u, v) = (a.last() as int, b.last() as int);
        assert(x == y && u == v) by (nonlinear_arith)
            requires x * 256 + u == y * 256 + v, 0 <= u < 256, 0 <= v < 256;
        lemma_be_injective(a.drop_last(), b.drop_last());
        assert(a =~= a.drop_last().push(a.last()));
        assert(b =~= b.drop_last().push(b.last()));
    }
}

/// Sort value of key `k` in a table of `len`-byte keys.
pub open spec fn key_rank(k: Seq<u8>, len: nat) -> int {
    be_num(padded(k, len))
}

fn key_value(k: &Vec<u8>, len: usize) -> (r: u128)
    requires
        len <= 12,
    ensures
        r as int == key_rank(k@, len as nat),
        (r as int) < pow256(12),
{
    let ghost p = padded(k@, len as nat);
    let mut r: u128 = 0;
    let mut i: usize = 0;
    proof {
        assert(pow256(12) == 0x1000000000000000000000000) by {
            reveal_with_fuel(pow256, 13);
        }
    }
    while i < len
        invariant
            0 <= i <= len <= 12,
            p == padded(k@, len as nat),
            r as int == be_num(p.take(i as int)),
            (r as int) < pow256(i as nat),
            pow256(12) == 0x1000000000000000000000000,
        decreases len - i,
    {
        let b: u8 = if i < k.len() { k[i] } else { 0 };
        proof {
            assert(p.take(i as int + 1).drop_last() =~= p.take(i as int));
            lemma_be_bound(p.take(i as int));
            assert(r * 256 + b < 256 * pow256(i as nat)) by (nonlinear_arith)
                requires r < pow256(i as nat), b < 256;
            assert(256 * pow256(i as nat) <= pow256(12)) by {
                reveal_with_fuel(pow256, 13);
            }
        }
        r = r * 256 + b as u128;
        i = i + 1;
    }
    proof {
        assert(p.take(len as int) =~= p);
        assert(pow256(len as nat) <= pow256(12)) by {
            reveal_with_fuel(pow256, 13);
        }
    }
    r
}

/// Entry positions ordered by key: strictly ascending key ranks, so each
/// entry comes exactly once.
fn key_order(entries: &[StrategyEntry], len: usize) -> (order: Vec<usize>)
    requires
        KEY_LEN <= len <= 12,
        entries@.len() < 0x1_0000_0000,
        forall|j: int| 0 <= j < entries@.len() ==> (#[trigger] entries@[j]).key@.len() == KEY_LEN,
        forall|j1: int, j2: int|
            0 <= j1 < entries@.len() && 0 <= j2 < entries@.len() && j1 != j2 ==> (#[trigger] entries@[j1]).key@ != (
            #[trigger] entries@[j2]).key@,
    ensures
        order@.len() == entries@.len(),
        forall|i: int| 0 <= i < order@.len() ==> (#[trigger] order@[i]) < entries@.len(),
        forall|i: int, j: int|
            0 <= i < j < order@.len() ==> key_rank(entries@[#[trigger] order@[i] as int].key@, len as nat) < key_rank(
                entries@[#[trigger] order@[j] as int].key@,
                len as nat,
            ),
{
    let n = entries.len();
    let mut vals: Vec<u128> = Vec::new();
    let mut j: usize = 0;
    while j < n
        invariant
            0 <= j <= n,
            n == entries@.len(),
            n < 0x1_0000_0000,
            len <= 12,
            vals@.len() == j,
            forall|i: int| 0 <= i < j ==> #[trigger] vals@[i] as int == key_rank(entries@[i].key@, len as nat) * 0x1_0000_0000 + i,
            forall|i: int| 0 <= i < j ==> #[trigger] key_rank(entries@[i].key@, len as nat) < pow256(12),
        decreases n - j,
    {
        let kv = key_value(&entries[j].key, len);
        proof {
            assert(pow256(12) == 0x1000000000000000000000000) by {
                reveal_with_fuel(pow256, 13);
            }
        }
        vals.push(kv * 0x1_0000_0000 + j as u128);
        j = j + 1;
    }
    let ghost orig = vals@;
    proof {
        assert(orig.no_duplicates()) by {
            assert forall|a: int, b: int| 0 <= a < orig.len() && 0 <= b < orig.len() && a != b implies orig[a] != orig[b] by {
                let (ka, kb) = (key_rank(entries@[a].key@, len as nat), key_rank(entries@[b].key@, len as nat));
                assert(ka * 0x1_0000_0000 + a != kb * 0x1_0000_0000 + b) by (nonlinear_arith)
                    requires 0 <= a < 0x1_0000_0000, 0 <= b < 0x1_0000_0000, a != b;
            }
        }
        orig.lemma_multiset_has_no_duplicates();
    }
    sort_ascending(&mut vals);
    proof {
        broadcast use vstd::seq_lib::group_to_multiset_ensures;
        vals@.lemma_multiset_has_no_duplicates_conv();
        assert(vals@.len() == vals@.to_multiset().len());
        assert(orig.len() == orig.to_multiset().len());
        assert(orig.len() == n);
        assert forall|a: int| 0 <= a < n implies orig.contains(#[trigger] vals@[a]) by {
            assert(vals@.contains(vals@[a]));
            assert(vals@.to_multiset().count(vals@[a]) > 0);
        }
    }
    let mut order: Vec<usize> = Vec::new();
    let mut i: usize = 0;
    while i < n
        invariant
            0 <= i <= n,
            n == entries@.len(),
            n < 0x1_0000_0000,
            vals@.len() == n,
            order@.len() == i,
            len <= 12,
            vals@.no_duplicates(),
            forall|a: int, b: int| 0 <= a < b < vals@.len() ==> vals@[a] <= vals@[b],
            orig.len() == n,
            forall|a: int| 0 <= a < n ==> orig.contains(#[trigger] vals@[a]),
            forall|b: int| 0 <= b < n ==> #[trigger] orig[b] as int == key_rank(entries@[b].key@, len as nat) * 0x1_0000_0000 + b,
            forall|a: int| 0 <= a < i ==> (#[trigger] order@[a] as int) == vals@[a] as int % 0x1_0000_0000,
            forall|a: int| 0 <= a < i ==> (#[trigger] order@[a]) < n,
        decreases n - i,
    {
        let v = vals[i];
        proof {
            let b = choose|b: int| 0 <= b < n && vals@[i as int] == orig[b];
            let kb = key_rank(entries@[b].key@, len as nat);
            assert((kb * 0x1_0000_0000 + b) % 0x1_0000_0000 == b) by (nonlinear_arith)
                requires 0 <= b < 0x1_0000_0000;
        }
        order.push((v % 0x1_0000_0000) as usize);
        i = i + 1;
    }
    proof {
        assert forall|i: int, j: int| 0 <= i < j < order@.len() implies key_rank(entries@[#[trigger] order@[i] as int].key@, len as nat)
            < key_rank(entries@[#[trigger] order@[j] as int].key@, len as nat) by {
            let bi = choose|b: int| 0 <= b < n && vals@[i] == orig[b];
            let bj = choose|b: int| 0 <= b < n && vals@[j] == orig[b];
            let (ki, kj) = (key_rank(entries@[bi].key@, len as nat), key_rank(entries@[bj].key@, len as nat));
            assert(vals@[i] != vals@[j]);
            assert(vals@[i] < vals@[j]);
            assert((ki * 0x1_0000_0000 + bi) % 0x1_0000_0000 == bi) by (nonlinear_arith)
                requires 0 <= bi < 0x1_0000_0000;
            assert((kj * 0x1_0000_0000 + bj) % 0x1_0000_0000 == bj) by (nonlinear_arith)
                requires 0 <= bj < 0x1_0000_0000;
            assert(ki <= kj) by (nonlinear_arith)
                requires ki * 0x1_0000_0000 + bi < kj * 0x1_0000_0000 + bj, 0 <= bi < 0x1_0000_0000, 0 <= bj < 0x1_0000_0000;
            assert(bi != bj);
            if ki == kj {
                lemma_be_injective(padded(entries@[bi].key@, len as nat), padded(entries@[bj].key@, len as nat));
                assert(entries@[bi].key@ =~= padded(entries@[bi].key@, len as nat).take(10));
                assert(entries@[bj].key@ =~= padded(entries@[bj].key@, len as nat).take(10));
            }
        }
    }
    order
}


/// One row of a strategy table: a canonical key, the best hold and the EV
/// of each of the 32 holds.
#[derive(Debug)]
pub struct StrategyEntry {
    pub key: Vec<u8>,
    pub best_mask: u8,
    pub evs: Vec<HoldEv>,
}

pub open spec fn entry_ok(e: StrategyEntry) -> bool {
    &&& e.key@.len() == KEY_LEN
    &&& e.best_mask < 32
    &&& e.evs@.len() == 32
    &&& forall|m: int|
        0 <= m < 32 ==> (#[trigger] e.evs@[m]).draws >= 1 && e.evs@[m].draws <= pow2(54)
            && e.evs@[m].total <= e.evs@[m].draws * MAX_PAYOUT
}

/// Entries that a table can hold: well formed, with distinct keys, and
/// few enough to count in 32 bits.
pub open spec fn entries_ok(entries: Seq<StrategyEntry>) -> bool {
    &&& entries.len() < 0x1_0000_0000
    &&& forall|j: int| 0 <= j < entries.len() ==> entry_ok(#[trigger] entries[j])
    &&& forall|j1: int, j2: int|
        0 <= j1 < entries.len() && 0 <= j2 < entries.len() && j1 != j2 ==> (#[trigger] entries[j1]).key@
            != (#[trigger] entries[j2]).key@
}

pub open spec fn pow10(n: nat) -> int
    decreases n,
{
    if n == 0 {
        1
    } else {
        10 * pow10((n - 1) as nat)
    }
}

/// Every EV of `evs` fits in 16 bits at scale `s` (divisor 10^(s-4)).
pub open spec fn fits_scale(evs: Seq<HoldEv>, s: int) -> bool {
    forall|m: int| 0 <= m < evs.len() ==> (#[trigger] evs[m]).total * pow10((4 - s) as nat) <= 65535 * evs[m].draws
}

/// The smallest scale whose ceiling covers every EV, else the largest.
pub open spec fn scale_of(evs: Seq<HoldEv>) -> int {
    if fits_scale(evs, 0) {
        0
    } else if fits_scale(evs, 1) {
        1
    } else if fits_scale(evs, 2) {
        2
    } else {
        3
    }
}

/// EV `e` divided by the scale's divisor, rounded half up, clamped to 16 bits.
pub open spec fn encoded_ev(e: HoldEv, s: int) -> int {
    let q = (2 * e.total * pow10((4 - s) as nat) + e.draws) / (2 * e.draws as int);
    if q > 65535 {
        65535
    } else {
        q
    }
}

pub open spec fn u16_le(x: int) -> Seq<u8> {
    seq![(x % 256) as u8, (x / 256 % 256) as u8]
}

pub open spec fn u32_le(x: int) -> Seq<u8> {
    seq![(x % 256) as u8, (x / 256 % 256) as u8, (x / 65536 % 256) as u8, (x / 16777216 % 256) as u8]
}

pub open spec fn evs_bytes(evs: Seq<HoldEv>, s: int, n: int) -> Seq<u8>
    decreases n,
{
    if n <= 0 {
        Seq::empty()
    } else {
        evs_bytes(evs, s, n - 1) + u16_le(encoded_ev(evs[n - 1], s))
    }
}

/// Record of the full layout: best hold, scale, then the 32 encoded EVs.
pub open spec fn full_record(e: StrategyEntry) -> Seq<u8> {
    seq![e.best_mask, scale_of(e.evs@) as u8] + evs_bytes(e.evs@, scale_of(e.evs@), 32)
}

/// Record of the best-only layout: best hold and the bits of the best EV as
/// a 32-bit float.
pub open spec fn best_record(e: StrategyEntry, ev_bits: u32) -> Seq<u8> {
    seq![e.best_mask] + u32_le(ev_bits as int)
}

pub open spec fn key_len_for(joker: bool) -> nat {
    if joker {
        12
    } else {
        10
    }
}

pub open spec fn header(magic: Seq<u8>, version: int, joker: bool, count: int) -> Seq<u8> {
    magic + u16_le(version) + u16_le(if joker { 1int } else { 0 }) + u32_le(count) + seq![
        key_len_for(joker) as u8,
    ] + Seq::new(51, |i: int| 0u8)
}

/// Entry positions in ascending key order, each entry once.
pub open spec fn sorted_order(entries: Seq<StrategyEntry>, order: Seq<int>, len: nat) -> bool {
    &&& order.len() == entries.len()
    &&& forall|i: int| 0 <= i < order.len() ==> 0 <= #[trigger] order[i] < entries.len()
    &&& forall|i: int, j: int|
        0 <= i < j < order.len() ==> key_rank(entries[#[trigger] order[i]].key@, len) < key_rank(
            entries[#[trigger] order[j]].key@,
            len,
        )
}

pub open spec fn index_bytes(entries: Seq<StrategyEntry>, order: Seq<int>, len: nat, n: int) -> Seq<u8>
    decreases n,
{
    if n <= 0 {
        Seq::empty()
    } else {
        index_bytes(entries, order, len, n - 1) + padded(entries[order[n - 1]].key@, len)
    }
}

pub open spec fn full_records(entries: Seq<StrategyEntry>, order: Seq<int>, n: int) -> Seq<u8>
    decreases n,
{
    if n <= 0 {
        Seq::empty()
    } else {
        full_records(entries, order, n - 1) + full_record(entries[order[n - 1]])
    }
}

pub open spec fn best_records(entries: Seq<StrategyEntry>, bits: Seq<u32>, order: Seq<int>, n: int) -> Seq<u8>
    decreases n,
{
    if n <= 0 {
        Seq::empty()
    } else {
        best_records(entries, bits, order, n - 1) + best_record(entries[order[n - 1]], bits[order[n - 1]])
    }
}

/// The full-vector table of `entries`, laid out in the given key order.
pub open spec fn full_table(entries: Seq<StrategyEntry>, order: Seq<int>, joker: bool) -> Seq<u8> {
    header(seq!['V' as u8, 'P' as u8, 'S' as u8, '2' as u8], 2, joker, entries.len() as int)
        + index_bytes(entries, order, key_len_for(joker), entries.len() as int)
        + full_records(entries, order, entries.len() as int)
}

/// The best-only table of `entries`, laid out in the given key order.
pub open spec fn best_table(entries: Seq<StrategyEntry>, bits: Seq<u32>, order: Seq<int>, joker: bool) -> Seq<u8> {
    header(seq!['V' as u8, 'P' as u8, 'S' as u8, 'T' as u8], 1, joker, entries.len() as int)
        + index_bytes(entries, order, key_len_for(joker), entries.len() as int)
        + best_records(entries, bits, order, entries.len() as int)
}

fn push_u16(out: &mut Vec<u8>, x: u16)
    ensures
        final(out)@ == old(out)@ + u16_le(x as int),
{
    out.push((x % 256) as u8);
    out.push((x / 256) as u8);
    assert(final(out)@ =~= old(out)@ + u16_le(x as int));
}

fn push_u32(out: &mut Vec<u8>, x: u32)
    ensures
        final(out)@ == old(out)@ + u32_le(x as int),
{
    out.push((x % 256) as u8);
    out.push((x / 256 % 256) as u8);
    out.push((x / 65536 % 256) as u8);
    out.push((x / 16777216 % 256) as u8);
    assert(final(out)@ =~= old(out)@ + u32_le(x as int));
}

fn push_header(out: &mut Vec<u8>, magic: [u8; 4], version: u16, joker: bool, count: u32)
    ensures
        final(out)@ == old(out)@ + header(magic@, version as int, joker, count as int),
{
    let ghost start = out@;
    out.push(magic[0]);
    out.push(magic[1]);
    out.push(magic[2]);
    out.push(magic[3]);
    assert(out@ =~= start + magic@);
    push_u16(out, version);
    push_u16(out, if joker { 1 } else { 0 });
    push_u32(out, count);
    out.push(if joker { 12 } else { 10 });
    let ghost before = out@;
    let mut i: usize = 0;
    while i < 51
        invariant
            0 <= i <= 51,
            out@ == before + Seq::new(i as nat, |k: int| 0u8),
        decreases 51 - i,
    {
        out.push(0);
        i = i + 1;
        assert(out@ =~= before + Seq::new(i as nat, |k: int| 0u8));
    }
    assert(out@ =~= start + header(magic@, version as int, joker, count as int));
}

fn push_padded(out: &mut Vec<u8>, k: &Vec<u8>, len: usize)
    ensures
        final(out)@ == old(out)@ + padded(k@, len as nat),
{
    let ghost start = out@;
    let mut i: usize = 0;
    while i < len
        invariant
            0 <= i <= len,
            out@ == start + padded(k@, len as nat).take(i as int),
        decreases len - i,
    {
        out.push(if i < k.len() { k[i] } else { 0 });
        i = i + 1;
        assert(out@ =~= start + padded(k@, len as nat).take(i as int));
    }
    assert(padded(k@, len as nat).take(len as int) =~= padded(k@, len as nat));
}

fn fits_at(evs: &Vec<HoldEv>, mult: u128, s: Ghost<int>) -> (b: bool)
    requires
        evs@.len() == 32,
        0 <= s@ <= 4,
        mult as int == pow10((4 - s@) as nat),
        mult <= 10000,
        forall|m: int|
            0 <= m < 32 ==> (#[trigger] evs@[m]).draws <= pow2(54) && evs@[m].total <= evs@[m].draws * MAX_PAYOUT,
    ensures
        b == fits_scale(evs@, s@),
{
    proof {
        lemma2_to64_rest();
    }
    let mut m: usize = 0;
    while m < 32
        invariant
            0 <= m <= 32,
            evs@.len() == 32,
            mult as int == pow10((4 - s@) as nat),
            mult <= 10000,
            pow2(54) == 0x40000000000000,
            forall|k: int|
                0 <= k < 32 ==> (#[trigger] evs@[k]).draws <= pow2(54) && evs@[k].total <= evs@[k].draws * MAX_PAYOUT,
            forall|k: int| 0 <= k < m ==> (#[trigger] evs@[k]).total * pow10((4 - s@) as nat) <= 65535 * evs@[k].draws,
        decreases 32 - m,
    {
        let e = evs[m];
        proof {
            assert(e.total * mult <= 0x40000000000000 * 10000 * 10000) by (nonlinear_arith)
                requires e.total <= e.draws * 10000, e.draws <= 0x40000000000000, mult <= 10000;
        }
        if e.total * mult > 65535 * (e.draws as u128) {
            return false;
        }
        m = m + 1;
    }
    true
}

fn encode_ev(e: HoldEv, mult: u128, s: Ghost<int>) -> (v: u16)
    requires
        0 <= s@ <= 4,
        mult as int == pow10((4 - s@) as nat),
        mult <= 10000,
        e.draws >= 1,
        e.draws <= pow2(54),
        e.total <= e.draws * MAX_PAYOUT,
    ensures
        v as int == encoded_ev(e, s@),
{
    proof {
        lemma2_to64_rest();
        assert(2 * e.total * mult + e.draws <= 2 * 0x40000000000000 * 10000 * 10000 + 0x40000000000000) by (nonlinear_arith)
            requires e.total <= e.draws * 10000, e.draws <= 0x40000000000000, mult <= 10000;
    }
    let q = (2 * e.total * mult + e.draws as u128) / (2 * e.draws as u128);
    if q > 65535 {
        65535
    } else {
        q as u16
    }
}

fn push_full_record(out: &mut Vec<u8>, e: &StrategyEntry)
    requires
        entry_ok(*e),
    ensures
        final(out)@ == old(out)@ + full_record(*e),
{
    let ghost start = out@;
    proof {
        assert(pow10(4) == 10000 && pow10(3) == 1000 && pow10(2) == 100 && pow10(1) == 10) by {
            reveal_with_fuel(pow10, 5);
        }
    }
    let (scale, mult): (u8, u128) = if fits_at(&e.evs, 10000, Ghost(0)) {
        (0, 10000)
    } else if fits_at(&e.evs, 1000, Ghost(1)) {
        (1, 1000)
    } else if fits_at(&e.evs, 100, Ghost(2)) {
        (2, 100)
    } else {
        (3, 10)
    };
    assert(scale as int == scale_of(e.evs@));
    out.push(e.best_mask);
    out.push(scale);
    let ghost before = out@;
    let mut m: usize = 0;
    while m < 32
        invariant
            0 <= m <= 32,
            entry_ok(*e),
            scale as int == scale_of(e.evs@),
            mult as int == pow10((4 - scale) as nat),
            mult <= 10000,
            out@ == before + evs_bytes(e.evs@, scale as int, m as int),
        decreases 32 - m,
    {
        let v = encode_ev(e.evs[m], mult, Ghost(scale as int));
        push_u16(out, v);
        m = m + 1;
    }
    assert(out@ =~= start + full_record(*e));
}

/// Encodes the full-vector table: header `VPS2`, version 2, the keys in
/// ascending order, then per key the best hold, the scale and the 32 EVs
/// as 16-bit multiples of the scale's divisor.
pub fn encode_full(entries: &[StrategyEntry], joker: bool) -> (r: Vec<u8>)
    requires
        entries_ok(entries@),
    ensures
        exists|order: Seq<int>|
            sorted_order(entries@, order, key_len_for(joker)) && r@ == full_table(entries@, order, joker),
{
    let len: usize = if joker { 12 } else { 10 };
    let order = key_order(entries, len);
    let ghost ord = order@.map_values(|x: usize| x as int);
    let mut out: Vec<u8> = Vec::new();
    push_header(&mut out, ['V' as u8, 'P' as u8, 'S' as u8, '2' as u8], 2, joker, entries.len() as u32);
    let ghost after_header = out@;
    let n = entries.len();
    let mut i: usize = 0;
    while i < n
        invariant
            0 <= i <= n,
            n == entries@.len(),
            order@.len() == n,
            ord == order@.map_values(|x: usize| x as int),
            forall|k: int| 0 <= k < n ==> (#[trigger] order@[k]) < n,
            len as nat == key_len_for(joker),
            out@ == after_header + index_bytes(entries@, ord, len as nat, i as int),
        decreases n - i,
    {
        push_padded(&mut out, &entries[order[i]].key, len);
        i = i + 1;
    }
    let ghost after_index = out@;
    let mut i: usize = 0;
    while i < n
        invariant
            0 <= i <= n,
            n == entries@.len(),
            entries_ok(entries@),
            order@.len() == n,
            ord == order@.map_values(|x: usize| x as int),
            forall|k: int| 0 <= k < n ==> (#[trigger] order@[k]) < n,
            out@ == after_index + full_records(entries@, ord, i as int),
        decreases n - i,
    {
        push_full_record(&mut out, &entries[order[i]]);
        i = i + 1;
    }
    assert(sorted_order(entries@, ord, key_len_for(joker)));
    assert(out@ =~= full_table(entries@, ord, joker));
    out
}

/// Encodes the best-only table: header `VPST`, version 1, the keys in
/// ascending order, then per key the best hold and `ev_bits[j]`, the bit
/// pattern of entry `j`'s best EV as a 32-bit float.
pub fn encode_best(entries: &[StrategyEntry], ev_bits: &[u32], joker: bool) -> (r: Vec<u8>)
    requires
        entries_ok(entries@),
        ev_bits@.len() == entries@.len(),
    ensures
        exists|order: Seq<int>|
            sorted_order(entries@, order, key_len_for(joker)) && r@ == best_table(entries@, ev_bits@, order, joker),
{
    let len: usize = if joker { 12 } else { 10 };
    let order = key_order(entries, len);
    let ghost ord = order@.map_values(|x: usize| x as int);
    let mut out: Vec<u8> = Vec::new();
    push_header(&mut out, ['V' as u8, 'P' as u8, 'S' as u8, 'T' as u8], 1, joker, entries.len() as u32);
    let ghost after_header = out@;
    let n = entries.len();
    let mut i: usize = 0;
    while i < n
        invariant
            0 <= i <= n,
            n == entries@.len(),
            order@.len() == n,
            ord == order@.map_values(|x: usize| x as int),
            forall|k: int| 0 <= k < n ==> (#[trigger] order@[k]) < n,
            len as nat == key_len_for(joker),
            out@ == after_header + index_bytes(entries@, ord, len as nat, i as int),
        decreases n - i,
    {
        push_padded(&mut out, &entries[order[i]].key, len);
        i = i + 1;
    }
    let ghost after_index = out@;
    let mut i: usize = 0;
    while i < n
        invariant
            0 <= i <= n,
            n == entries@.len(),
            ev_bits@.len() == n,
            order@.len() == n,
            ord == order@.map_values(|x: usize| x as int),
            forall|k: int| 0 <= k < n ==> (#[trigger] order@[k]) < n,
            out@ == after_index + best_records(entries@, ev_bits@, ord, i as int),
        decreases n - i,
    {
        let j = order[i];
        out.push(entries[j].best_mask);
        push_u32(&mut out, ev_bits[j]);
        proof {
            assert(out@ =~= after_index + best_records(entries@, ev_bits@, ord, i as int + 1));
        }
        i = i + 1;
    }
    assert(sorted_order(entries@, ord, key_len_for(joker)));
    assert(out@ =~= best_table(entries@, ev_bits@, ord, joker));
    out
}


/// Decoding an EV of the full layout loses at most half the scale's
/// divisor: with `mult = 1 / divisor`, the stored value `q` satisfies
/// `|q / mult - total / draws| <= 1 / (2 * mult)` whenever the EV fits the
/// scale, as every EV of a record does at the scale chosen for it when the
/// record's largest EV is at most 6553.5.
pub proof fn lemma_encoded_ev_close(e: HoldEv, s: int)
    requires
        0 <= s <= 4,
        e.draws >= 1,
        e.total * pow10((4 - s) as nat) <= 65535 * e.draws,
    ensures
        2 * e.total * pow10((4 - s) as nat) - e.draws <= 2 * encoded_ev(e, s) * e.draws,
        2 * encoded_ev(e, s) * e.draws <= 2 * e.total * pow10((4 - s) as nat) + e.draws,
{
    let m = pow10((4 - s) as nat);
    let t = e.total as int;
    let d = e.draws as int;
    let x = 2 * t * m + d;
    let q = x / (2 * d);
    lemma_pow10_pos((4 - s) as nat);
    vstd::arithmetic::div_mod::lemma_fundamental_div_mod(x, 2 * d);
    let r = x % (2 * d);
    assert(0 <= r < 2 * d) by {
        vstd::arithmetic::div_mod::lemma_mod_bound(x, 2 * d);
    }
    assert(x == 2 * d * q + r);
    assert(q <= 65535) by (nonlinear_arith)
        requires x == 2 * d * q + r, 0 <= r, x == 2 * t * m + d, t * m <= 65535 * d, d >= 1;
    assert(2 * q * d == 2 * d * q) by (nonlinear_arith);
}

proof fn lemma_pow10_pos(n: nat)
    ensures
        pow10(n) >= 1,
    decreases n,
{
    if n > 0 {
        lemma_pow10_pos((n - 1) as nat);
    }
}

} // verus!
