//! Canonical hand keys and the enumeration of one representative hand per key.
use vstd::prelude::*;
use vstd::relations::sorted_by;
use std::collections::HashSet;
use crate::card::{rank_ascii, rank_char};
use crate::ev::{combinations, combos, lemma_combos_items};

verus! {

/// `s` with `x` inserted before its first element that is not below `x`.
pub open spec fn insert_sorted(s: Seq<u8>, x: u8) -> Seq<u8>
    decreases s.len(),
{
    if s.len() == 0 {
        seq![x]
    } else if x <= s[0] {
        seq![x] + s
    } else {
        seq![s[0]] + insert_sorted(s.drop_first(), x)
    }
}

/// The cards of `h` in index order, that is by rank, then suit, jokers last.
pub open spec fn sort_cards(h: Seq<u8>) -> Seq<u8>
    decreases h.len(),
{
    if h.len() == 0 {
        Seq::empty()
    } else {
        insert_sorted(sort_cards(h.drop_last()), h.last())
    }
}

/// One step of the suit labelling: a ranked card whose suit is still
/// unlabelled (label 4) gives that suit the next free label.
pub open spec fn label_step(st: (Seq<int>, int), c: u8) -> (Seq<int>, int) {
    if c < 52 && st.0[c as int % 4] == 4 {
        (st.0.update(c as int % 4, st.1), st.1 + 1)
    } else {
        st
    }
}

/// Suit labels after walking the first `n` cards of `s`: the label of each
/// of the four suits (4 while unseen) and the next free label.
pub open spec fn labels_after(s: Seq<u8>, n: int) -> (Seq<int>, int)
    decreases n,
{
    if n <= 0 {
        (seq![4int, 4, 4, 4], 0)
    } else {
        label_step(labels_after(s, n - 1), s[n - 1])
    }
}

/// Value of the `i`-th card of `s` in its key: `5 * rank + label` for a
/// ranked card, 65 for a joker.
pub open spec fn key_value(s: Seq<u8>, i: int) -> int {
    if s[i] < 52 {
        5 * (s[i] as int / 4) + labels_after(s, i + 1).0[s[i] as int % 4]
    } else {
        65
    }
}

pub open spec fn key_values(s: Seq<u8>) -> Seq<int> {
    Seq::new(s.len(), |i: int| key_value(s, i))
}

/// The two key characters of a value: rank character and suit letter, or `Ww`.
pub open spec fn value_chars(v: int) -> Seq<u8> {
    if v == 65 {
        seq!['W' as u8, 'w' as u8]
    } else {
        seq![rank_ascii(v / 5), ('a' as u8 + v % 5) as u8]
    }
}

pub open spec fn chars_of(vs: Seq<int>) -> Seq<u8>
    decreases vs.len(),
{
    if vs.len() == 0 {
        Seq::empty()
    } else {
        chars_of(vs.drop_last()) + value_chars(vs.last())
    }
}

/// Base-70 number whose digits are the key values, most significant first.
pub open spec fn code_of(vs: Seq<int>) -> int
    decreases vs.len(),
{
    if vs.len() == 0 {
        0
    } else {
        code_of(vs.drop_last()) * 70 + vs.last()
    }
}

/// First-sighting key of a hand: its cards in index order, each written as
/// its rank character and a suit letter given in order of first sighting
/// (`a` for the first suit seen, then `b`, ...), jokers as `Ww`.
pub open spec fn seen_key(h: Seq<u8>) -> Seq<u8> {
    chars_of(key_values(sort_cards(h)))
}

/// The first-sighting key as a base-70 number.
pub open spec fn seen_code(h: Seq<u8>) -> int {
    code_of(key_values(sort_cards(h)))
}

/// A relabelling of the four suits: suit `s` becomes `p[s]`.
pub open spec fn is_perm(p: Seq<int>) -> bool {
    &&& p.len() == 4
    &&& forall|i: int| 0 <= i < 4 ==> 0 <= #[trigger] p[i] < 4
    &&& p[0] != p[1] && p[0] != p[2] && p[0] != p[3] && p[1] != p[2] && p[1] != p[3] && p[2] != p[3]
}

/// Card `c` with its suit relabelled by `p`; jokers stay.
pub open spec fn relabel(p: Seq<int>, c: u8) -> u8 {
    if c < 52 {
        (c as int / 4 * 4 + p[c as int % 4]) as u8
    } else {
        c
    }
}

pub open spec fn permute_suits(p: Seq<int>, h: Seq<u8>) -> Seq<u8> {
    h.map_values(|c: u8| relabel(p, c))
}

/// The relabelling numbered `j`, read as four base-4 digits.
pub open spec fn decode_perm(j: int) -> Seq<int> {
    seq![j / 64, j / 16 % 4, j / 4 % 4, j % 4]
}

/// Above every key code.
pub const NO_CODE: u64 = 0x8000_0000;

/// Least first-sighting code of `h` over the relabellings numbered below `n`.
pub open spec fn best_upto(h: Seq<u8>, n: int) -> int
    decreases n,
{
    if n <= 0 {
        NO_CODE as int
    } else {
        let b = best_upto(h, n - 1);
        let p = decode_perm(n - 1);
        if is_perm(p) && seen_code(permute_suits(p, h)) < b {
            seen_code(permute_suits(p, h))
        } else {
            b
        }
    }
}

/// Least first-sighting code of `h` over all 24 suit relabellings.
pub open spec fn key_code(h: Seq<u8>) -> int {
    best_upto(h, 256)
}

/// The `n` base-70 digits of `m`, most significant first.
pub open spec fn digits(m: int, n: nat) -> Seq<int>
    decreases n,
{
    if n == 0 {
        Seq::empty()
    } else {
        digits(m / 70, (n - 1) as nat).push(m % 70)
    }
}

/// The canonical key of a hand: the least, over all relabellings of the
/// four suits (jokers fixed), of its first-sighting key. It depends only
/// on the hand's class under suit relabelling.
pub open spec fn key_of(h: Seq<u8>) -> Seq<u8> {
    chars_of(digits(key_code(h), h.len()))
}


proof fn lemma_insert_at(s: Seq<u8>, x: u8, p: int)
    requires
        0 <= p <= s.len(),
        forall|i: int| 0 <= i < p ==> x > #[trigger] s[i],
        p < s.len() ==> x <= s[p],
    ensures
        insert_sorted(s, x) == s.insert(p, x),
    decreases s.len(),
{
    if s.len() == 0 {
        assert(insert_sorted(s, x) =~= s.insert(p, x));
    } else if x <= s[0] {
        assert(insert_sorted(s, x) =~= s.insert(p, x));
    } else {
        let t = s.drop_first();
        assert forall|i: int| 0 <= i < p - 1 implies x > #[trigger] t[i] by {
            assert(t[i] == s[i + 1]);
        }
        lemma_insert_at(t, x, p - 1);
        assert(insert_sorted(s, x) =~= s.insert(p, x));
    }
}

fn insert_into(s: &mut Vec<u8>, x: u8)
    requires
        old(s)@.len() < 5,
    ensures
        final(s)@ == insert_sorted(old(s)@, x),
{
    let mut p: usize = 0;
    while p < s.len() && x > s[p]
        invariant
            0 <= p <= s@.len(),
            s@.len() < 5,
            forall|i: int| 0 <= i < p ==> x > #[trigger] s@[i],
        decreases s@.len() - p,
    {
        p = p + 1;
    }
    proof {
        lemma_insert_at(s@, x, p as int);
    }
    s.insert(p, x);
}

fn sort_hand(hand: &[u8]) -> (s: Vec<u8>)
    requires
        hand@.len() == 5,
    ensures
        s@ == sort_cards(hand@),
        s@.len() == 5,
{
    let mut s: Vec<u8> = Vec::new();
    let mut i: usize = 0;
    while i < 5
        invariant
            0 <= i <= 5,
            hand@.len() == 5,
            s@ == sort_cards(hand@.take(i as int)),
            s@.len() == i,
        decreases 5 - i,
    {
        proof {
            assert(hand@.take(i as int + 1).drop_last() =~= hand@.take(i as int));
            lemma_insert_sorted_len(s@, hand@[i as int]);
        }
        insert_into(&mut s, hand[i]);
        i = i + 1;
    }
    assert(hand@.take(5) =~= hand@);
    s
}

proof fn lemma_insert_sorted_len(s: Seq<u8>, x: u8)
    ensures
        insert_sorted(s, x).len() == s.len() + 1,
    decreases s.len(),
{
    if s.len() > 0 && x > s[0] {
        lemma_insert_sorted_len(s.drop_first(), x);
    }
}

pub open spec fn pow70(n: nat) -> int
    decreases n,
{
    if n == 0 {
        1
    } else {
        70 * pow70((n - 1) as nat)
    }
}

proof fn lemma_chars_len(vs: Seq<int>)
    ensures
        chars_of(vs).len() == 2 * vs.len(),
    decreases vs.len(),
{
    if vs.len() > 0 {
        lemma_chars_len(vs.drop_last());
    }
}

pub open spec fn value_ok(v: int) -> bool {
    (0 <= v < 65 && v % 5 < 4) || v == 65
}

proof fn lemma_chars_injective(a: Seq<int>, b: Seq<int>)
    requires
        forall|i: int| 0 <= i < a.len() ==> value_ok(#[trigger] a[i]),
        forall|i: int| 0 <= i < b.len() ==> value_ok(#[trigger] b[i]),
        chars_of(a) == chars_of(b),
    ensures
        a == b,
    decreases a.len(),
{
    lemma_chars_len(a);
    lemma_chars_len(b);
    if a.len() > 0 {
        let (ca, cb) = (chars_of(a), chars_of(b));
        let n = ca.len() as int;
        lemma_chars_len(a.drop_last());
        lemma_chars_len(b.drop_last());
        assert(ca.subrange(0, n - 2) =~= chars_of(a.drop_last()));
        assert(cb.subrange(0, n - 2) =~= chars_of(b.drop_last()));
        assert(ca[n - 2] == value_chars(a.last())[0]);
        assert(cb[n - 2] == value_chars(b.last())[0]);
        assert(ca[n - 1] == value_chars(a.last())[1]);
        assert(cb[n - 1] == value_chars(b.last())[1]);
        let (x, y) = (a.last(), b.last());
        assert(value_ok(x) && value_ok(y));
        assert(x == y);
        lemma_chars_injective(a.drop_last(), b.drop_last());
        assert(a =~= b.drop_last().push(y));
    }
}

pub open spec fn lab_ok(lab: Seq<u8>, next: u8) -> bool {
    &&& lab.len() == 4
    &&& forall|k: int| 0 <= k < 4 ==> #[trigger] lab[k] <= 4
    &&& next as int == (if lab[0] != 4 { 1int } else { 0 }) + (if lab[1] != 4 { 1int } else { 0 }) + (
        if lab[2] != 4 { 1int } else { 0 }) + (if lab[3] != 4 { 1int } else { 0 })
}

pub open spec fn lab_view(lab: Seq<u8>, next: u8) -> (Seq<int>, int) {
    (seq![lab[0] as int, lab[1] as int, lab[2] as int, lab[3] as int], next as int)
}

/// Applies one labelling step and returns the card's key value.
fn label_card(lab: &mut [u8; 4], next: &mut u8, c: u8) -> (v: u8)
    requires
        lab_ok(old(lab)@, *old(next)),
    ensures
        lab_ok(final(lab)@, *final(next)),
        lab_view(final(lab)@, *final(next)) == label_step(lab_view(old(lab)@, *old(next)), c),
        v as int == (if c < 52 {
            5 * (c as int / 4) + lab_view(final(lab)@, *final(next)).0[c as int % 4]
        } else {
            65
        }),
        value_ok(v as int),
{
    let ghost st = lab_view(lab@, *next);
    if c < 52 && lab[(c % 4) as usize] == 4 {
        lab[(c % 4) as usize] = *next;
        *next = *next + 1;
        assert(lab_view(lab@, *next).0 =~= st.0.update(c as int % 4, st.1));
    }
    if c < 52 {
        5 * (c / 4) + lab[(c % 4) as usize]
    } else {
        65
    }
}

proof fn lemma_labels_len(s: Seq<u8>, n: int)
    ensures
        labels_after(s, n).0.len() == 4,
    decreases n,
{
    if n > 0 {
        lemma_labels_len(s, n - 1);
    }
}

fn push_value(key: &mut Vec<u8>, v: u8)
    requires
        value_ok(v as int),
    ensures
        final(key)@ == old(key)@ + value_chars(v as int),
{
    if v == 65 {
        key.push('W' as u8);
        key.push('w' as u8);
    } else {
        key.push(rank_char(v / 5));
        key.push('a' as u8 + v % 5);
    }
    assert(key@ =~= old(key)@ + value_chars(v as int));
}

/// Key characters and key code of five cards in index order.
fn key_parts(s: &Vec<u8>) -> (r: (Vec<u8>, u64))
    requires
        s@.len() == 5,
    ensures
        r.0@ == chars_of(key_values(s@)),
        r.1 as int == code_of(key_values(s@)),
        forall|i: int| 0 <= i < 5 ==> value_ok(#[trigger] key_values(s@)[i]),
{
    let mut lab: [u8; 4] = [4u8; 4];
    let mut next: u8 = 0;
    let mut key: Vec<u8> = Vec::new();
    let mut code: u64 = 0;
    let ghost vs = key_values(s@);
    proof {
        assert(lab_view(lab@, next) =~= labels_after(s@, 0));
        assert(pow70(5) == 1680700000) by {
            reveal_with_fuel(pow70, 6);
        }
    }
    let mut i: usize = 0;
    while i < 5
        invariant
            0 <= i <= 5,
            s@.len() == 5,
            vs == key_values(s@),
            lab_ok(lab@, next),
            lab_view(lab@, next) == labels_after(s@, i as int),
            key@ == chars_of(vs.take(i as int)),
            code as int == code_of(vs.take(i as int)),
            0 <= code < pow70(i as nat),
            pow70(5) == 1680700000,
            forall|k: int| 0 <= k < i ==> value_ok(#[trigger] vs[k]),
        decreases 5 - i,
    {
        let v = label_card(&mut lab, &mut next, s[i]);
        proof {
            lemma_labels_len(s@, i as int + 1);
            assert(v as int == vs[i as int]);
        }
        push_value(&mut key, v);
        proof {
            assert(vs.take(i as int + 1).drop_last() =~= vs.take(i as int));
            assert(code * 70 + v < 70 * pow70(i as nat)) by (nonlinear_arith)
                requires code < pow70(i as nat), v < 70;
            assert(70 * pow70(i as nat) <= pow70(5)) by {
                reveal_with_fuel(pow70, 6);
            }
        }
        code = code * 70 + v as u64;
        i = i + 1;
    }
    proof {
        assert(vs.take(5) =~= vs);
    }
    (key, code)
}

fn relabel_hand(hand: &[u8], p: &[u8; 4]) -> (r: Vec<u8>)
    requires
        hand@.len() == 5,
        forall|i: int| 0 <= i < 4 ==> #[trigger] p@[i] < 4,
    ensures
        r@ == permute_suits(p@.map_values(|x: u8| x as int), hand@),
{
    let ghost pi = p@.map_values(|x: u8| x as int);
    let mut r: Vec<u8> = Vec::new();
    let mut i: usize = 0;
    while i < 5
        invariant
            0 <= i <= 5,
            hand@.len() == 5,
            pi == p@.map_values(|x: u8| x as int),
            forall|k: int| 0 <= k < 4 ==> #[trigger] p@[k] < 4,
            r@ == permute_suits(pi, hand@).take(i as int),
        decreases 5 - i,
    {
        let c = hand[i];
        let d: u8 = if c < 52 {
            c / 4 * 4 + p[(c % 4) as usize]
        } else {
            c
        };
        assert(d == relabel(pi, c));
        r.push(d);
        i = i + 1;
        assert(r@ =~= permute_suits(pi, hand@).take(i as int));
    }
    assert(r@ =~= permute_suits(pi, hand@));
    r
}

/// Canonical key of a five-card hand and its code.
pub(crate) fn canonical_parts(hand: &[u8]) -> (r: (Vec<u8>, u64))
    requires
        hand@.len() == 5,
    ensures
        r.0@ == key_of(hand@),
        r.1 as int == key_code(hand@),
{
    let mut best: u64 = NO_CODE;
    let mut key: Vec<u8> = Vec::new();
    let mut j: u16 = 0;
    while j < 256
        invariant
            j <= 256,
            hand@.len() == 5,
            best as int == best_upto(hand@, j as int),
            best < NO_CODE ==> key@ == chars_of(digits(best as int, 5)),
        decreases 256 - j,
    {
        let p: [u8; 4] = [(j / 64) as u8, (j / 16 % 4) as u8, (j / 4 % 4) as u8, (j % 4) as u8];
        let ghost pi = p@.map_values(|x: u8| x as int);
        assert(pi =~= decode_perm(j as int));
        if p[0] != p[1] && p[0] != p[2] && p[0] != p[3] && p[1] != p[2] && p[1] != p[3] && p[2] != p[3] {
            let ph = relabel_hand(hand, &p);
            let sh = sort_hand(ph.as_slice());
            let (k, c) = key_parts(&sh);
            proof {
                lemma_key_facts(ph@);
                let vs = key_values(sh@);
                assert forall|i: int| 0 <= i < vs.len() implies 0 <= #[trigger] vs[i] < 70 by {
                    assert(value_ok(vs[i]));
                }
                lemma_digits_code(vs);
            }
            if c < best {
                best = c;
                key = k;
            }
        }
        j = j + 1;
    }
    proof {
        lemma_key_code(hand@);
    }
    (key, best)
}

/// The canonical key of a five-card hand.
pub fn canonical_key(hand: &[u8]) -> (k: Vec<u8>)
    requires
        hand@.len() == 5,
    ensures
        k@ == key_of(hand@),
{
    let (k, _) = canonical_parts(hand);
    k
}


/// One representative hand of a key, with the key itself.
#[derive(Debug)]
pub struct CanonicalHand {
    pub key: Vec<u8>,
    pub cards: Vec<u8>,
}

/// Every five-card selection of a `d`-card deck, in increasing order of
/// card indices.
pub open spec fn all_hands(d: u8) -> Seq<Seq<u8>> {
    combos(Seq::new(d as nat, |i: int| i as u8), 5)
}

/// `c` holds hand `j` of `all`, and no earlier hand of `all` has its key.
pub open spec fn first_at(c: CanonicalHand, all: Seq<Seq<u8>>, j: int) -> bool {
    c.cards@ == all[j] && forall|m: int| 0 <= m < j ==> key_of(#[trigger] all[m]) != c.key@
}

/// Some hand among the first `n` of `all` is the one `c` holds, first with its key.
pub open spec fn has_first(c: CanonicalHand, all: Seq<Seq<u8>>, n: int) -> bool {
    exists|j: int| 0 <= j < n && #[trigger] first_at(c, all, j)
}

/// `out` holds distinct keys, each with the first hand of `all` that has it,
/// and covers the keys of the first `n` hands of `all`.
pub open spec fn first_hands(out: Seq<CanonicalHand>, all: Seq<Seq<u8>>, n: int) -> bool {
    &&& forall|k: int| 0 <= k < out.len() ==> (#[trigger] out[k]).key@ == key_of(out[k].cards@)
    &&& forall|k: int| 0 <= k < out.len() ==> #[trigger] has_first(out[k], all, n)
    &&& forall|j: int| 0 <= j < n ==> exists|k: int| 0 <= k < out.len() && (#[trigger] out[k]).key@ == key_of(#[trigger] all[j])
    &&& forall|k1: int, k2: int|
        0 <= k1 < out.len() && 0 <= k2 < out.len() && k1 != k2 ==> (#[trigger] out[k1]).key@ != (
        #[trigger] out[k2]).key@
}

spec fn seen_inv(seen: Set<u64>, out: Seq<CanonicalHand>) -> bool {
    &&& forall|k: int| 0 <= k < out.len() ==> (#[trigger] out[k]).cards@.len() == 5
    &&& forall|x: u64| seen.contains(x) ==> exists|k: int| 0 <= k < out.len() && x as int == key_code((#[trigger] out[k]).cards@)
    &&& forall|k: int| 0 <= k < out.len() ==> seen.contains(key_code((#[trigger] out[k]).cards@) as u64)
    &&& forall|k: int| 0 <= k < out.len() ==> 0 <= key_code((#[trigger] out[k]).cards@) < 1680700000
}

pub open spec fn seen_count(lab: Seq<int>) -> int {
    (if lab[0] != 4 { 1int } else { 0 }) + (if lab[1] != 4 { 1int } else { 0 }) + (if lab[2] != 4 {
        1int
    } else {
        0
    }) + (if lab[3] != 4 { 1int } else { 0 })
}

proof fn lemma_labels_ok(s: Seq<u8>, n: int)
    requires
        0 <= n,
    ensures
        labels_after(s, n).0.len() == 4,
        forall|k: int| 0 <= k < 4 ==> 0 <= #[trigger] labels_after(s, n).0[k] <= 4,
        labels_after(s, n).1 == seen_count(labels_after(s, n).0),
    decreases n,
{
    if n > 0 {
        lemma_labels_ok(s, n - 1);
    }
}

proof fn lemma_key_value_ok(s: Seq<u8>, i: int)
    requires
        0 <= i < s.len(),
    ensures
        value_ok(key_value(s, i)),
{
    lemma_labels_ok(s, i);
    lemma_labels_ok(s, i + 1);
}


proof fn lemma_code_bound(vs: Seq<int>)
    requires
        forall|i: int| 0 <= i < vs.len() ==> 0 <= #[trigger] vs[i] < 70,
    ensures
        0 <= code_of(vs) < pow70(vs.len()),
    decreases vs.len(),
{
    if vs.len() > 0 {
        lemma_code_bound(vs.drop_last());
        let c = code_of(vs.drop_last());
        let v = vs.last();
        assert(c * 70 + v < 70 * pow70((vs.len() - 1) as nat)) by (nonlinear_arith)
            requires 0 <= c < pow70((vs.len() - 1) as nat), 0 <= v < 70;
        assert(c * 70 + v >= 0) by (nonlinear_arith)
            requires 0 <= c, 0 <= v;
    }
}

/// Values and code facts of the key of a five-card hand.
proof fn lemma_key_facts(h: Seq<u8>)
    requires
        h.len() == 5,
    ensures
        key_values(sort_cards(h)).len() == 5,
        forall|i: int| 0 <= i < 5 ==> value_ok(#[trigger] key_values(sort_cards(h))[i]),
        0 <= seen_code(h) < 1680700000,
{
    lemma_sort_len(h);
    let s = sort_cards(h);
    assert forall|i: int| 0 <= i < 5 implies value_ok(#[trigger] key_values(s)[i]) by {
        lemma_key_value_ok(s, i);
    }
    lemma_code_bound(key_values(s));
    assert(pow70(5) == 1680700000) by {
        reveal_with_fuel(pow70, 6);
    }
}


/// Relabelling by `t`, then by `q`.
pub open spec fn compose(q: Seq<int>, t: Seq<int>) -> Seq<int> {
    seq![q[t[0]], q[t[1]], q[t[2]], q[t[3]]]
}

/// The relabelling that undoes `t`.
pub open spec fn inverse(t: Seq<int>) -> Seq<int> {
    Seq::new(4, |j: int| if t[0] == j { 0int } else if t[1] == j { 1int } else if t[2] == j { 2int } else { 3int })
}

proof fn lemma_perm_algebra(q: Seq<int>, t: Seq<int>)
    requires
        is_perm(q),
        is_perm(t),
    ensures
        is_perm(compose(q, t)),
        is_perm(inverse(t)),
        compose(compose(q, inverse(t)), t) == q,
{
    assert(0 <= t[0] < 4 && 0 <= t[1] < 4 && 0 <= t[2] < 4 && 0 <= t[3] < 4);
    assert(0 <= q[0] < 4 && 0 <= q[1] < 4 && 0 <= q[2] < 4 && 0 <= q[3] < 4);
    let iv = inverse(t);
    assert(iv[t[0]] == 0 && iv[t[1]] == 1 && iv[t[2]] == 2 && iv[t[3]] == 3);
    assert(compose(compose(q, iv), t) =~= q);
}

proof fn lemma_permute_compose(q: Seq<int>, t: Seq<int>, h: Seq<u8>)
    requires
        is_perm(q),
        is_perm(t),
    ensures
        permute_suits(q, permute_suits(t, h)) == permute_suits(compose(q, t), h),
{
    assert forall|i: int| 0 <= i < h.len() implies relabel(q, #[trigger] relabel(t, h[i])) == relabel(
        compose(q, t),
        h[i],
    ) by {
        let c = h[i] as int;
        if c < 52 {
            let s = c % 4;
            assert(0 <= t[s] < 4);
            let d = c / 4 * 4 + t[s];
            assert(d / 4 == c / 4 && d % 4 == t[s]);
        }
    }
    assert(permute_suits(q, permute_suits(t, h)) =~= permute_suits(compose(q, t), h));
}

proof fn lemma_decode_perm(p: Seq<int>)
    requires
        is_perm(p),
    ensures
        0 <= p[0] * 64 + p[1] * 16 + p[2] * 4 + p[3] < 256,
        decode_perm(p[0] * 64 + p[1] * 16 + p[2] * 4 + p[3]) == p,
{
    assert(0 <= p[0] < 4 && 0 <= p[1] < 4 && 0 <= p[2] < 4 && 0 <= p[3] < 4);
    assert(decode_perm(p[0] * 64 + p[1] * 16 + p[2] * 4 + p[3]) =~= p);
}

proof fn lemma_best_upto(h: Seq<u8>, n: int)
    requires
        0 <= n,
    ensures
        best_upto(h, n) <= NO_CODE,
        forall|j: int|
            0 <= j < n && is_perm(decode_perm(j)) ==> best_upto(h, n) <= seen_code(
                permute_suits(#[trigger] decode_perm(j), h),
            ),
        best_upto(h, n) < NO_CODE ==> exists|j: int|
            0 <= j < n && is_perm(decode_perm(j)) && best_upto(h, n) == seen_code(
                permute_suits(#[trigger] decode_perm(j), h),
            ),
    decreases n,
{
    if n > 0 {
        lemma_best_upto(h, n - 1);
    }
}

/// The least code is attained by a relabelling, bounds every relabelling's
/// code, and is a five-digit base-70 number.
proof fn lemma_key_code(h: Seq<u8>)
    requires
        h.len() == 5,
    ensures
        exists|p: Seq<int>| is_perm(p) && key_code(h) == #[trigger] seen_code(permute_suits(p, h)),
        forall|q: Seq<int>| is_perm(q) ==> key_code(h) <= #[trigger] seen_code(permute_suits(q, h)),
        0 <= key_code(h) < 1680700000,
{
    let id = decode_perm(27);
    assert(id =~= seq![0int, 1, 2, 3]);
    lemma_key_facts(permute_suits(id, h));
    lemma_best_upto(h, 256);
    assert forall|q: Seq<int>| is_perm(q) implies key_code(h) <= #[trigger] seen_code(permute_suits(q, h)) by {
        lemma_decode_perm(q);
        let j = q[0] * 64 + q[1] * 16 + q[2] * 4 + q[3];
        assert(decode_perm(j) == q);
    }
    let j = choose|j: int|
        0 <= j < 256 && is_perm(decode_perm(j)) && best_upto(h, 256) == seen_code(
            permute_suits(#[trigger] decode_perm(j), h),
        );
    let p = decode_perm(j);
    lemma_key_facts(permute_suits(p, h));
    assert(is_perm(p) && key_code(h) == seen_code(permute_suits(p, h)));
}

/// Relabelling the suits of a hand leaves its canonical key unchanged.
pub proof fn lemma_key_invariant(t: Seq<int>, h: Seq<u8>)
    requires
        is_perm(t),
        h.len() == 5,
    ensures
        key_code(permute_suits(t, h)) == key_code(h),
        key_of(permute_suits(t, h)) == key_of(h),
{
    let th = permute_suits(t, h);
    lemma_key_code(h);
    lemma_key_code(th);
    let p = choose|p: Seq<int>| is_perm(p) && key_code(h) == #[trigger] seen_code(permute_suits(p, h));
    let r = compose(p, inverse(t));
    lemma_perm_algebra(p, t);
    lemma_perm_algebra(r, t);
    lemma_permute_compose(r, t, h);
    assert(seen_code(permute_suits(r, th)) == key_code(h));
    let q = choose|q: Seq<int>| is_perm(q) && key_code(th) == #[trigger] seen_code(permute_suits(q, th));
    lemma_perm_algebra(q, t);
    lemma_permute_compose(q, t, h);
    assert(seen_code(permute_suits(compose(q, t), h)) == key_code(th));
}

proof fn lemma_digits_code(vs: Seq<int>)
    requires
        forall|i: int| 0 <= i < vs.len() ==> 0 <= #[trigger] vs[i] < 70,
    ensures
        digits(code_of(vs), vs.len()) == vs,
    decreases vs.len(),
{
    if vs.len() > 0 {
        let t = vs.drop_last();
        lemma_digits_code(t);
        lemma_code_bound(t);
        let c = code_of(t);
        let v = vs.last();
        assert((c * 70 + v) / 70 == c && (c * 70 + v) % 70 == v) by (nonlinear_arith)
            requires 0 <= v < 70, 0 <= c;
        assert(vs =~= t.push(v));
    }
}

/// The key is the first-sighting key of a relabelling that attains the
/// least code, and its digits are well-formed key values.
pub proof fn lemma_key_digits(h: Seq<u8>)
    requires
        h.len() == 5,
    ensures
        digits(key_code(h), 5).len() == 5,
        forall|i: int| 0 <= i < 5 ==> value_ok(#[trigger] digits(key_code(h), 5)[i]),
        code_of(digits(key_code(h), 5)) == key_code(h),
        key_of(h) == chars_of(digits(key_code(h), 5)),
{
    lemma_key_code(h);
    let p = choose|p: Seq<int>| is_perm(p) && key_code(h) == #[trigger] seen_code(permute_suits(p, h));
    let ph = permute_suits(p, h);
    lemma_key_facts(ph);
    let vs = key_values(sort_cards(ph));
    assert forall|i: int| 0 <= i < vs.len() implies 0 <= #[trigger] vs[i] < 70 by {
        assert(value_ok(vs[i]));
    }
    lemma_digits_code(vs);
}

/// Hands with one key have one key code.
proof fn lemma_key_injective(a: Seq<u8>, b: Seq<u8>)
    requires
        a.len() == 5,
        b.len() == 5,
        key_of(a) == key_of(b),
    ensures
        key_code(a) == key_code(b),
{
    lemma_key_digits(a);
    lemma_key_digits(b);
    lemma_chars_injective(digits(key_code(a), 5), digits(key_code(b), 5));
}


/// Ascending order of card indices.
pub open spec fn ascending() -> spec_fn(u8, u8) -> bool {
    |x: u8, y: u8| x <= y
}

proof fn lemma_insert_sorted_props(s: Seq<u8>, x: u8)
    requires
        sorted_by(s, ascending()),
    ensures
        sorted_by(insert_sorted(s, x), ascending()),
        insert_sorted(s, x).to_multiset() == s.to_multiset().insert(x),
    decreases s.len(),
{
    broadcast use vstd::seq_lib::group_to_multiset_ensures, vstd::multiset::group_multiset_axioms;

    let r = insert_sorted(s, x);
    if s.len() == 0 {
        assert(r =~= seq![x]);
        assert(seq![x] =~= Seq::<u8>::empty().push(x));
        assert(r.to_multiset() =~= s.to_multiset().insert(x));
    } else if x <= s[0] {
        assert(r =~= seq![x] + s);
        assert forall|i: int, j: int| 0 <= i < j < r.len() implies #[trigger] ascending()(r[i], r[j]) by {
            if i == 0 {
                if j > 1 {
                    assert(ascending()(s[0], s[j - 1]));
                }
            } else {
                assert(ascending()(s[i - 1], s[j - 1]));
            }
        }
        vstd::seq_lib::lemma_multiset_commutative(seq![x], s);
        assert(seq![x] =~= Seq::<u8>::empty().push(x));
        assert(r.to_multiset() =~= s.to_multiset().insert(x));
    } else {
        let t = s.drop_first();
        assert(sorted_by(t, ascending())) by {
            assert forall|i: int, j: int| 0 <= i < j < t.len() implies #[trigger] ascending()(t[i], t[j]) by {
                assert(ascending()(s[i + 1], s[j + 1]));
            }
        }
        lemma_insert_sorted_props(t, x);
        let u = insert_sorted(t, x);
        assert(r =~= seq![s[0]] + u);
        assert forall|i: int| 0 <= i < u.len() implies ascending()(s[0], #[trigger] u[i]) by {
            assert(u.to_multiset().count(u[i]) > 0);
            assert(u.contains(u[i]));
            if u[i] != x {
                assert(t.to_multiset().count(u[i]) > 0);
                let k = choose|k: int| 0 <= k < t.len() && t[k] == u[i];
                assert(ascending()(s[0], s[k + 1]));
            }
        }
        assert forall|i: int, j: int| 0 <= i < j < r.len() implies #[trigger] ascending()(r[i], r[j]) by {
            if i == 0 {
                assert(r[j] == u[j - 1]);
            } else {
                assert(r[i] == u[i - 1] && r[j] == u[j - 1]);
            }
        }
        vstd::seq_lib::lemma_multiset_commutative(seq![s[0]], u);
        vstd::seq_lib::lemma_multiset_commutative(seq![s[0]], t);
        assert(s =~= seq![s[0]] + t);
        assert(r.to_multiset() =~= s.to_multiset().insert(x));
    }
}

proof fn lemma_sort_props(h: Seq<u8>)
    ensures
        sorted_by(sort_cards(h), ascending()),
        sort_cards(h).to_multiset() == h.to_multiset(),
    decreases h.len(),
{
    broadcast use vstd::seq_lib::group_to_multiset_ensures;

    if h.len() > 0 {
        lemma_sort_props(h.drop_last());
        lemma_insert_sorted_props(sort_cards(h.drop_last()), h.last());
        assert(h =~= h.drop_last().push(h.last()));
    }
}

proof fn lemma_permute_multiset(p: Seq<int>, a: Seq<u8>, b: Seq<u8>)
    requires
        a.to_multiset() == b.to_multiset(),
    ensures
        permute_suits(p, a).to_multiset() == permute_suits(p, b).to_multiset(),
    decreases a.len(),
{
    broadcast use vstd::seq_lib::group_to_multiset_ensures, vstd::multiset::group_multiset_axioms;

    a.to_multiset_ensures();
    b.to_multiset_ensures();
    if a.len() == 0 {
        assert(b.len() == 0);
        assert(permute_suits(p, a) =~= permute_suits(p, b));
    } else {
        let x = a.last();
        assert(a =~= a.drop_last().push(x));
        assert(b.to_multiset().count(x) > 0);
        assert(b.contains(x));
        let i = choose|i: int| 0 <= i < b.len() && b[i] == x;
        let b2 = b.remove(i);
        assert(b2.to_multiset() =~= a.drop_last().to_multiset());
        lemma_permute_multiset(p, a.drop_last(), b2);
        assert(permute_suits(p, b2) =~= permute_suits(p, b).remove(i));
        assert(permute_suits(p, a) =~= permute_suits(p, a.drop_last()).push(relabel(p, x)));
        assert(permute_suits(p, a).to_multiset() =~= permute_suits(p, b).to_multiset());
    }
}

proof fn lemma_best_upto_multiset(a: Seq<u8>, b: Seq<u8>, n: int)
    requires
        a.to_multiset() == b.to_multiset(),
    ensures
        best_upto(a, n) == best_upto(b, n),
    decreases n,
{
    if n > 0 {
        lemma_best_upto_multiset(a, b, n - 1);
        let p = decode_perm(n - 1);
        let (pa, pb) = (permute_suits(p, a), permute_suits(p, b));
        lemma_permute_multiset(p, a, b);
        lemma_sort_props(pa);
        lemma_sort_props(pb);
        assert(vstd::relations::total_ordering(ascending()));
        vstd::seq_lib::lemma_sorted_unique(sort_cards(pa), sort_cards(pb), ascending());
        assert(sort_cards(pa) == sort_cards(pb));
    }
}

/// The key of a hand does not depend on the order of its cards.
pub proof fn lemma_key_order_free(a: Seq<u8>, b: Seq<u8>)
    requires
        a.to_multiset() == b.to_multiset(),
    ensures
        key_code(a) == key_code(b),
        key_of(a) == key_of(b),
{
    broadcast use vstd::seq_lib::group_to_multiset_ensures;

    lemma_best_upto_multiset(a, b, 256);
    a.to_multiset_ensures();
    b.to_multiset_ensures();
    assert(a.len() == b.len());
}

/// Keeps `cards` as a representative when no hand of `out` has its key.
fn consider(cards: Vec<u8>, seen: &mut HashSet<u64>, out: &mut Vec<CanonicalHand>)
    requires
        cards@.len() == 5,
        seen_inv(old(seen)@, old(out)@),
        forall|k: int| 0 <= k < old(out)@.len() ==> (#[trigger] old(out)@[k]).key@ == key_of(old(out)@[k].cards@),
    ensures
        seen_inv(final(seen)@, final(out)@),
        (exists|k: int| 0 <= k < old(out)@.len() && (#[trigger] old(out)@[k]).key@ == key_of(cards@))
            ==> final(out)@ == old(out)@,
        !(exists|k: int| 0 <= k < old(out)@.len() && (#[trigger] old(out)@[k]).key@ == key_of(cards@))
            ==> final(out)@ == old(out)@.push(final(out)@.last()) && final(out)@.last().cards@ == cards@
            && final(out)@.last().key@ == key_of(cards@),
{
    broadcast use vstd::std_specs::hash::group_hash_axioms;
    let (key, code) = canonical_parts(cards.as_slice());
    proof {
        lemma_key_code(cards@);
    }
    let ghost old_out = out@;
    if seen.contains(&code) {
        proof {
            let k = choose|k: int| 0 <= k < old_out.len() && code as int == key_code((#[trigger] old_out[k]).cards@);
            assert(old_out[k].key@ == key_of(cards@));
        }
    } else {
        proof {
            assert forall|k: int| 0 <= k < old_out.len() implies key_of((#[trigger] old_out[k]).cards@) != key@ by {
                if key_of(old_out[k].cards@) == key@ {
                    lemma_key_injective(old_out[k].cards@, cards@);
                    assert(seen@.contains(code));
                }
            }
        }
        seen.insert(code);
        out.push(CanonicalHand { key, cards });
        proof {
            assert forall|x: u64| seen@.contains(x) implies exists|k: int|
                0 <= k < out@.len() && x as int == key_code((#[trigger] out@[k]).cards@) by {
                if x == code {
                    assert(x as int == key_code(out@[out@.len() - 1].cards@));
                } else {
                    let k = choose|k: int| 0 <= k < old_out.len() && x as int == key_code((#[trigger] old_out[k]).cards@);
                    assert(out@[k] == old_out[k]);
                }
            }
            assert(out@ =~= old_out.push(out@.last()));
            assert(!(exists|k: int| 0 <= k < old_out.len() && (#[trigger] old_out[k]).key@ == key_of(cards@)));
        }
    }
}

proof fn lemma_step_seen(out: Seq<CanonicalHand>, hs: Seq<Seq<u8>>, i: int)
    requires
        0 <= i < hs.len(),
        first_hands(out, hs, i),
        exists|k: int| 0 <= k < out.len() && (#[trigger] out[k]).key@ == key_of(hs[i]),
    ensures
        first_hands(out, hs, i + 1),
{
    assert forall|j: int| 0 <= j < i + 1 implies exists|k: int|
        0 <= k < out.len() && (#[trigger] out[k]).key@ == key_of(#[trigger] hs[j]) by {
        if j == i {
            let k = choose|k: int| 0 <= k < out.len() && (#[trigger] out[k]).key@ == key_of(hs[i]);
            assert(out[k].key@ == key_of(hs[j]));
        }
    }
    lemma_first_hands_grow(out, hs, i);
}

proof fn lemma_first_hands_grow(out: Seq<CanonicalHand>, hs: Seq<Seq<u8>>, i: int)
    requires
        0 <= i,
        forall|k: int| 0 <= k < out.len() ==> #[trigger] has_first(out[k], hs, i),
    ensures
        forall|k: int| 0 <= k < out.len() ==> #[trigger] has_first(out[k], hs, i + 1),
{
    assert forall|k: int| 0 <= k < out.len() implies #[trigger] has_first(out[k], hs, i + 1) by {
        assert(has_first(out[k], hs, i));
        let j = choose|j: int| 0 <= j < i && #[trigger] first_at(out[k], hs, j);
        assert(first_at(out[k], hs, j));
    }
}

proof fn lemma_step_new(old_out: Seq<CanonicalHand>, out: Seq<CanonicalHand>, hs: Seq<Seq<u8>>, i: int)
    requires
        0 <= i < hs.len(),
        first_hands(old_out, hs, i),
        !(exists|k: int| 0 <= k < old_out.len() && (#[trigger] old_out[k]).key@ == key_of(hs[i])),
        out.len() == old_out.len() + 1,
        out == old_out.push(out[old_out.len() as int]),
        out[old_out.len() as int].cards@ == hs[i],
        out[old_out.len() as int].key@ == key_of(hs[i]),
    ensures
        first_hands(out, hs, i + 1),
{
    let n = old_out.len() as int;
    assert(forall|k: int| 0 <= k < n ==> out[k] == old_out[k]);
    assert forall|j: int| 0 <= j < i + 1 implies exists|k: int|
        0 <= k < out.len() && (#[trigger] out[k]).key@ == key_of(#[trigger] hs[j]) by {
        if j < i {
            let k = choose|k: int| 0 <= k < old_out.len() && (#[trigger] old_out[k]).key@ == key_of(hs[j]);
            assert(out[k] == old_out[k]);
        } else {
            assert(out[n].key@ == key_of(hs[j]));
        }
    }
    assert forall|k: int| 0 <= k < out.len() implies #[trigger] has_first(out[k], hs, i + 1) by {
        if k < n {
            assert(out[k] == old_out[k]);
            assert(has_first(old_out[k], hs, i));
            let j = choose|j: int| 0 <= j < i && #[trigger] first_at(old_out[k], hs, j);
            assert(first_at(out[k], hs, j));
        } else {
            assert forall|m: int| 0 <= m < i implies key_of(#[trigger] hs[m]) != out[k].key@ by {
                if key_of(hs[m]) == out[k].key@ {
                    let kk = choose|kk: int| 0 <= kk < old_out.len() && (#[trigger] old_out[kk]).key@ == key_of(hs[m]);
                }
            }
            assert(first_at(out[k], hs, i));
        }
    }
    assert forall|k1: int, k2: int|
        0 <= k1 < out.len() && 0 <= k2 < out.len() && k1 != k2 implies (#[trigger] out[k1]).key@ != (
        #[trigger] out[k2]).key@ by {
        if k1 < n && k2 < n {
            assert(out[k1] == old_out[k1] && out[k2] == old_out[k2]);
        } else if k1 == n {
            assert(out[k2] == old_out[k2]);
        } else {
            assert(out[k1] == old_out[k1]);
        }
    }
}


/// No hand of `out` is a suit relabelling of another, in any card order.
pub open spec fn no_relabelled_pair(out: Seq<CanonicalHand>) -> bool {
    forall|k1: int, k2: int, p: Seq<int>|
        0 <= k1 < out.len() && 0 <= k2 < out.len() && k1 != k2 && is_perm(p) ==> #[trigger] permute_suits(
            p,
            out[k2].cards@,
        ).to_multiset() != (#[trigger] out[k1]).cards@.to_multiset()
}

proof fn lemma_no_relabelled_pair(out: Seq<CanonicalHand>, all: Seq<Seq<u8>>, n: int)
    requires
        first_hands(out, all, n),
        forall|k: int| 0 <= k < out.len() ==> (#[trigger] out[k]).cards@.len() == 5,
    ensures
        no_relabelled_pair(out),
{
    assert forall|k1: int, k2: int, p: Seq<int>|
        0 <= k1 < out.len() && 0 <= k2 < out.len() && k1 != k2 && is_perm(p) implies #[trigger] permute_suits(
            p,
            out[k2].cards@,
        ).to_multiset() != (#[trigger] out[k1]).cards@.to_multiset() by {
        if permute_suits(p, out[k2].cards@).to_multiset() == out[k1].cards@.to_multiset() {
            lemma_key_order_free(permute_suits(p, out[k2].cards@), out[k1].cards@);
            lemma_key_invariant(p, out[k2].cards@);
            assert(out[k1].key@ == out[k2].key@);
        }
    }
}

/// One representative hand for each class of five-card hands of a `d`-card
/// deck under relabelling of the suits: the first selection, in increasing
/// order of card indices, with the class's key. Every selection's key is
/// among the results, once, and no result is a relabelling of another.
pub fn generate_canonical_hands(d: u8) -> (r: Vec<CanonicalHand>)
    requires
        d <= 54,
    ensures
        first_hands(r@, all_hands(d), all_hands(d).len() as int),
        no_relabelled_pair(r@),
{
    let all = combinations(&crate::card::deck(d), 5);
    let ghost hs = all_hands(d);
    proof {
        lemma_combos_items(Seq::new(d as nat, |i: int| i as u8), 5);
        assert(all@.len() == hs.len());
    }
    let mut seen: HashSet<u64> = HashSet::new();
    let mut out: Vec<CanonicalHand> = Vec::new();
    let mut i: usize = 0;
    while i < all.len()
        invariant
            0 <= i <= all@.len(),
            all.deep_view() == hs,
            all@.len() == hs.len(),
            forall|j: int| 0 <= j < hs.len() ==> (#[trigger] hs[j]).len() == 5,
            seen_inv(seen@, out@),
            first_hands(out@, hs, i as int),
        decreases all@.len() - i,
    {
        let cards = all[i].clone();
        assert(cards@ == hs[i as int]);
        let ghost old_out = out@;
        consider(cards, &mut seen, &mut out);
        proof {
            let h = hs[i as int];
            if exists|k: int| 0 <= k < old_out.len() && (#[trigger] old_out[k]).key@ == key_of(h) {
                lemma_step_seen(old_out, hs, i as int);
            } else {
                lemma_step_new(old_out, out@, hs, i as int);
            }
        }
        i = i + 1;
    }
    proof {
        lemma_no_relabelled_pair(out@, hs, all@.len() as int);
    }
    out
}

pub proof fn lemma_key_len(h: Seq<u8>)
    requires
        h.len() == 5,
    ensures
        key_of(h).len() == 2 * h.len(),
{
    lemma_key_digits(h);
    lemma_chars_len(digits(key_code(h), 5));
}

proof fn lemma_sort_len(h: Seq<u8>)
    ensures
        sort_cards(h).len() == h.len(),
    decreases h.len(),
{
    if h.len() > 0 {
        lemma_sort_len(h.drop_last());
        lemma_insert_sorted_len(sort_cards(h.drop_last()), h.last());
    }
}

} // verus!
