//! A 32-bit presence map over the digits 0 to 31, and the 5-bit digits of a key.
use vstd::prelude::*;

verus! {

/// Number of trie levels needed to cover every bit of a `usize` key:
/// `ceil(64 / 5)`.
pub const MAX_DEPTH: usize = 13;

/// The digit of `key` at trie depth `depth`: bits `[5 * depth, 5 * depth + 5)`.
pub open spec fn digit_of(key: usize, depth: nat) -> usize {
    (((key as u64) >> ((5 * depth) as u64)) & 31u64) as usize
}

/// Whether bit `d` of `bits` is set.
pub open spec fn has_bit(bits: u32, d: nat) -> bool {
    (bits >> (d as u32)) & 1u32 == 1u32
}

/// Number of set bits of `x`.
pub open spec fn popcount(x: u32) -> nat
    decreases x,
{
    if x == 0 {
        0
    } else {
        popcount(x / 2) + (x % 2) as nat
    }
}

/// The mask of the `d` low bits.
pub open spec fn low_mask(d: nat) -> u32 {
    if d >= 32 {
        0xffff_ffffu32
    } else {
        (((1u64 << (d as u64)) - 1) as u32)
    }
}

/// Number of set bits of `bits` strictly below position `d`.
pub open spec fn rank_of(bits: u32, d: nat) -> nat {
    popcount(bits & low_mask(d))
}

/// Setting a bit `d` above every set bit of `b`: the count grows by one, the
/// ranks up to `d` stay, the rank of `d` is the old count, and every set bit
/// stays below any `next > d`.
pub proof fn lemma_set_top_bit(b: u32, d: nat, next: nat)
    requires
        d < next <= 32,
        b & low_mask(d) == b,
    ensures
        popcount(b | (1u32 << (d as u32))) == popcount(b) + 1,
        rank_of(b | (1u32 << (d as u32)), d) == popcount(b),
        forall|e: nat| e <= d ==> #[trigger] rank_of(b | (1u32 << (d as u32)), e) == rank_of(b, e),
        (b | (1u32 << (d as u32))) & low_mask(next) == b | (1u32 << (d as u32)),
{
    let s = d as u32;
    let b2 = b | (1u32 << s);
    lemma_popcount_top_bit(b, d);
    assert forall|e: nat| e <= d implies #[trigger] rank_of(b2, e) == rank_of(b, e) by {
        let t = e as u32;
        let m = low_mask(e);
        assert(m == (((1u64 << (t as u64)) - 1) as u32));
        assert(b2 & m == b & m) by (bit_vector)
            requires
                t <= s,
                s < 32,
                b2 == b | (1u32 << s),
                m == (((1u64 << (t as u64)) - 1) as u32),
        ;
    }
    assert(b & low_mask(d) == b);
    if next < 32 {
        let u = next as u32;
        let m = low_mask(next);
        let md = low_mask(d);
        assert(m == (((1u64 << (u as u64)) - 1) as u32));
        assert(md == (((1u64 << (s as u64)) - 1) as u32));
        assert(b2 & m == b2) by (bit_vector)
            requires
                s < u,
                u < 32,
                b & md == b,
                b2 == b | (1u32 << s),
                m == (((1u64 << (u as u64)) - 1) as u32),
                md == (((1u64 << (s as u64)) - 1) as u32),
        ;
    } else {
        assert(b2 & 0xffff_ffffu32 == b2) by (bit_vector);
    }
}

/// Every set bit of `b` below `d` is below any `next >= d` too.
pub proof fn lemma_mask_widen(b: u32, d: nat, next: nat)
    requires
        d <= next <= 32,
        b & low_mask(d) == b,
    ensures
        b & low_mask(next) == b,
{
    if next < 32 {
        let s = if d < 32 { d as u32 } else { 32u32 };
        let u = next as u32;
        let m = low_mask(next);
        let md = low_mask(d);
        assert(d < 32);
        assert(m == (((1u64 << (u as u64)) - 1) as u32));
        assert(md == (((1u64 << (s as u64)) - 1) as u32));
        assert(b & m == b) by (bit_vector)
            requires
                s <= u,
                u < 32,
                b & md == b,
                m == (((1u64 << (u as u64)) - 1) as u32),
                md == (((1u64 << (s as u64)) - 1) as u32),
        ;
    } else {
        assert(b & 0xffff_ffffu32 == b) by (bit_vector);
    }
}

/// A bit at or above `m` is clear when every set bit of `b` is below `m`.
pub proof fn lemma_mask_clear(b: u32, m: nat, e: nat)
    requires
        m <= e < 32,
        b & low_mask(m) == b,
    ensures
        !has_bit(b, e),
{
    let s = m as u32;
    let t = e as u32;
    let md = low_mask(m);
    assert(md == (((1u64 << (s as u64)) - 1) as u32));
    assert((b >> t) & 1u32 != 1u32) by (bit_vector)
        requires
            s <= t,
            t < 32,
            b & md == b,
            md == (((1u64 << (s as u64)) - 1) as u32),
    ;
}

proof fn lemma_popcount_top_bit(b: u32, d: nat)
    requires
        d < 32,
        b & low_mask(d) == b,
    ensures
        popcount(b | (1u32 << (d as u32))) == popcount(b) + 1,
    decreases d,
{
    let s = d as u32;
    let b2 = b | (1u32 << s);
    let md = low_mask(d);
    assert(md == (((1u64 << (s as u64)) - 1) as u32));
    if d == 0 {
        assert(b == 0u32 && b2 == 1u32) by (bit_vector)
            requires
                s == 0,
                b & md == b,
                b2 == b | (1u32 << s),
                md == (((1u64 << (s as u64)) - 1) as u32),
        ;
        assert(popcount(0u32) == 0);
        assert(popcount(1u32) == popcount(0u32) + 1);
    } else {
        let h = b / 2;
        let h2 = b2 / 2;
        let s1 = (s - 1) as u32;
        let m1 = low_mask((d - 1) as nat);
        assert(m1 == (((1u64 << (s1 as u64)) - 1) as u32));
        assert(h2 == h | (1u32 << s1) && b2 % 2 == b % 2 && h & m1 == h && b2 != 0) by (bit_vector)
            requires
                0 < s < 32,
                s1 == s - 1,
                b & md == b,
                b2 == b | (1u32 << s),
                h == b / 2,
                h2 == b2 / 2,
                md == (((1u64 << (s as u64)) - 1) as u32),
                m1 == (((1u64 << (s1 as u64)) - 1) as u32),
        ;
        lemma_popcount_top_bit(h, (d - 1) as nat);
        if b == 0 {
            assert(h == 0);
        }
    }
}

/// The rank grows by one across each set bit and stays across each clear
/// bit; below 0 it is 0 and below 32 it is the whole count.
pub proof fn lemma_rank_step(b: u32, e: nat)
    requires
        e < 32,
    ensures
        rank_of(b, e + 1) == rank_of(b, e) + if has_bit(b, e) { 1nat } else { 0nat },
        rank_of(b, 0) == 0,
        rank_of(b, 32) == popcount(b),
{
    let s = e as u32;
    let m = low_mask(e);
    assert(m == (((1u64 << (s as u64)) - 1) as u32));
    let x = b & m;
    let y = b & low_mask(e + 1);
    assert(x & m == x) by (bit_vector)
        requires
            x == b & m,
    ;
    if e + 1 < 32 {
        let m1 = low_mask(e + 1);
        assert(m1 == (((1u64 << ((s + 1) as u64)) - 1) as u32));
        assert(((b >> s) & 1u32 == 1u32 ==> b & m1 == x | (1u32 << s)) && ((b >> s) & 1u32 != 1u32 ==> b & m1 == x)) by (bit_vector)
            requires
                s < 31,
                x == b & m,
                m == (((1u64 << (s as u64)) - 1) as u32),
                m1 == (((1u64 << ((s + 1) as u64)) - 1) as u32),
        ;
    } else {
        assert(((b >> s) & 1u32 == 1u32 ==> b & 0xffff_ffffu32 == x | (1u32 << s)) && ((b >> s) & 1u32 != 1u32 ==> b & 0xffff_ffffu32 == x)) by (bit_vector)
            requires
                s == 31,
                x == b & m,
                m == (((1u64 << (s as u64)) - 1) as u32),
        ;
    }
    if has_bit(b, e) {
        lemma_popcount_top_bit(x, e);
    }
    let z = low_mask(0);
    assert(z == (((1u64 << (0u32 as u64)) - 1) as u32));
    assert(b & z == 0u32) by (bit_vector)
        requires
            z == (((1u64 << (0u32 as u64)) - 1) as u32),
    ;
    assert(popcount(0u32) == 0);
    assert(b & 0xffff_ffffu32 == b) by (bit_vector);
}

/// Ranks never shrink; across a set bit `e` the rank of `e` stays below the
/// whole count.
pub proof fn lemma_rank_mono(b: u32, e: nat, f: nat)
    requires
        e <= f <= 32,
    ensures
        rank_of(b, e) <= rank_of(b, f),
        e < f && has_bit(b, e) ==> rank_of(b, e) < rank_of(b, f),
    decreases f - e,
{
    if e < f {
        lemma_rank_mono(b, e, (f - 1) as nat);
        lemma_rank_step(b, (f - 1) as nat);
        if has_bit(b, e) && e < (f - 1) as nat {
            lemma_rank_mono(b, e + 1, (f - 1) as nat);
            lemma_rank_step(b, e);
        }
    }
}

/// A nonzero count has a set bit.
pub proof fn lemma_some_bit(b: u32, f: nat) -> (e: nat)
    requires
        f <= 32,
        rank_of(b, f) > 0,
    ensures
        e < f,
        has_bit(b, e),
    decreases f,
{
    lemma_rank_step(b, 0);
    if f == 0 {
        0
    } else {
        lemma_rank_step(b, (f - 1) as nat);
        if has_bit(b, (f - 1) as nat) {
            (f - 1) as nat
        } else {
            lemma_some_bit(b, (f - 1) as nat)
        }
    }
}

/// Relies on `u32::count_ones`: the number of set bits.
#[verifier::external_body]
fn count_ones(x: u32) -> (r: u32)
    ensures
        r as nat == popcount(x),
{
    x.count_ones()
}

/// A digit of the trie, in `0..32`.
#[derive(Debug, Clone, Copy, PartialEq, Eq, PartialOrd, Ord, Hash)]
pub struct Index32(pub usize);

impl Index32 {
    /// Whether the digit is in range.
    pub open spec fn wf(&self) -> bool {
        self.0 < 32
    }

    /// Makes a digit from a value in `0..32`.
    pub fn new(index: usize) -> (r: Index32)
        requires
            index < 32,
        ensures
            r.0 == index,
            r.wf(),
    {
        Index32(index)
    }

    /// The digit of `index` at trie depth `depth`.
    pub fn convert(index: usize, depth: usize) -> (r: Index32)
        requires
            depth < MAX_DEPTH,
        ensures
            r.0 == digit_of(index, depth as nat),
            r.wf(),
    {
        let shift = (depth * 5) as u64;
        let r = ((index as u64) >> shift) & 0b11111u64;
        assert(r < 32) by (bit_vector)
            requires
                r == ((index as u64) >> shift) & 0b11111u64,
        ;
        Index32(r as usize)
    }

    /// The largest digit that a key can have at trie depth `depth`.
    pub fn max_with(depth: usize) -> (r: Index32)
        requires
            depth < MAX_DEPTH,
        ensures
            r.0 == digit_of(usize::MAX, depth as nat),
            r.wf(),
    {
        Index32::convert(usize::MAX, depth)
    }

    /// The digit as an integer.
    pub fn num(&self) -> (r: usize)
        ensures
            r == self.0,
    {
        self.0
    }
}

/// A set of digits `0..32`, one bit each.
#[derive(Debug, Clone, Copy, PartialEq, Eq)]
pub struct Bitset(pub u32);

impl Bitset {
    /// Whether digit `d` is in the set.
    pub open spec fn has(&self, d: nat) -> bool {
        has_bit(self.0, d)
    }

    /// Number of members below digit `d`.
    pub open spec fn rank(&self, d: nat) -> nat {
        rank_of(self.0, d)
    }

    /// The empty set.
    pub fn new() -> (r: Bitset)
        ensures
            r.0 == 0,
            forall|d: nat| d < 32 ==> !r.has(d),
    {
        proof {
            assert forall|d: nat| d < 32 implies !has_bit(0u32, d) by {
                let s = d as u32;
                assert((0u32 >> s) & 1u32 == 0u32) by (bit_vector);
            }
        }
        Bitset(0)
    }

    /// The raw bits.
    pub fn num(&self) -> (r: u32)
        ensures
            r == self.0,
    {
        self.0
    }

    /// Whether `index` is in the set.
    pub fn get(&self, index: Index32) -> (r: bool)
        requires
            index.wf(),
        ensures
            r == self.has(index.0 as nat),
    {
        let s = index.0 as u32;
        let b = self.0;
        let r = b & (1u32 << s) != 0;
        assert(r == ((b >> s) & 1u32 == 1u32)) by (bit_vector)
            requires
                s < 32,
                r == (b & (1u32 << s) != 0),
        ;
        r
    }

    /// Adds `index` to the set and returns whether it was already there.
    pub fn set(&mut self, index: Index32) -> (prev: bool)
        requires
            index.wf(),
        ensures
            prev == old(self).has(index.0 as nat),
            final(self).0 == old(self).0 | (1u32 << (index.0 as u32)),
            final(self).has(index.0 as nat),
            forall|d: nat|
                d < 32 && d != index.0 ==> final(self).has(d) == old(self).has(d),
    {
        let prev = self.get(index);
        let s = index.0 as u32;
        let b = self.0;
        let nb = b | (1u32 << s);
        self.0 = nb;
        proof {
            assert((nb >> s) & 1u32 == 1u32) by (bit_vector)
                requires
                    s < 32,
                    nb == b | (1u32 << s),
            ;
            assert forall|d: nat| d < 32 && d != index.0 implies has_bit(nb, d) == has_bit(b, d) by {
                let t = d as u32;
                assert(((nb >> t) & 1u32 == 1u32) == ((b >> t) & 1u32 == 1u32)) by (bit_vector)
                    requires
                        s < 32,
                        t < 32,
                        t != s,
                        nb == b | (1u32 << s),
                ;
            }
        }
        prev
    }

    /// The offset of `index` among the members in ascending order, or `None`
    /// when `index` is not a member.
    pub fn packed_index(&self, index: Index32) -> (r: Option<usize>)
        requires
            index.wf(),
        ensures
            r is None <==> !self.has(index.0 as nat),
            r matches Some(i) ==> i as nat == self.rank(index.0 as nat),
    {
        if !self.get(index) {
            return None;
        }
        let s = index.0 as u32;
        assert(1u32 << s >= 1) by (bit_vector)
            requires
                s < 32,
        ;
        let mask = (1u32 << s) - 1;
        proof {
            assert(mask == (((1u64 << (s as u64)) - 1) as u32)) by (bit_vector)
                requires
                    s < 32,
                    mask == (1u32 << s) - 1,
            ;
        }
        let count = count_ones(self.0 & mask);
        Some(count as usize)
    }

    /// An iterator over the members in ascending order.
    pub fn iter(&self) -> (r: BitsetIter)
        ensures
            r.0 == *self,
    {
        BitsetIter(*self)
    }
}

/// The members of a `Bitset` not yet handed out, lowest first.
#[derive(Debug, Clone, Copy)]
pub struct BitsetIter(pub Bitset);

impl BitsetIter {
    /// Hands out the lowest member left and removes it, or `None` when none is
    /// left.
    pub fn next(&mut self) -> (r: Option<Index32>)
        ensures
            r is None <==> old(self).0.0 == 0,
            r matches Some(d) ==> {
                &&& d.wf()
                &&& old(self).0.has(d.0 as nat)
                &&& forall|e: nat| e < d.0 ==> !old(self).0.has(e)
                &&& final(self).0.0 == old(self).0.0 & !(1u32 << (d.0 as u32))
            },
            r is None ==> *final(self) == *old(self),
    {
        let b = (self.0).0;
        if b == 0 {
            return None;
        }
        let tz = b.trailing_zeros();
        proof {
            lemma_trailing_zeros(b);
        }
        let nb = b & !(1u32 << tz);
        self.0 = Bitset(nb);
        Some(Index32(tz as usize))
    }
}

proof fn lemma_trailing_zeros(b: u32)
    requires
        b != 0,
    ensures
        (b.trailing_zeros() as u32) < 32,
        has_bit(b, b.trailing_zeros() as nat),
        forall|e: nat| e < b.trailing_zeros() ==> !has_bit(b, e),
{
    vstd::std_specs::bits::axiom_u32_trailing_zeros(b);
}

} // verus!
