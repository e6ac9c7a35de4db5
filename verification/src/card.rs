use vstd::prelude::*;

use crate::suit;

verus! {

/// One of the 40 card identities: four nine-card suits (blue, yellow,
/// magenta, green) and the four-card rocket (trump) suit.
#[derive(Copy, Clone, Debug, PartialEq, Eq, Structural)]
pub enum Card {
    B1,
    B2,
    B3,
    B4,
    B5,
    B6,
    B7,
    B8,
    B9,
    Y1,
    Y2,
    Y3,
    Y4,
    Y5,
    Y6,
    Y7,
    Y8,
    Y9,
    M1,
    M2,
    M3,
    M4,
    M5,
    M6,
    M7,
    M8,
    M9,
    G1,
    G2,
    G3,
    G4,
    G5,
    G6,
    G7,
    G8,
    G9,
    R1,
    R2,
    R3,
    R4,
}

/// Bit position of a card inside the card universe. Bit order within a
/// suit's contiguous range follows rank order, and the rocket range lies
/// above every normal-suit range.
pub open spec fn card_bit(c: Card) -> int {
    match c {
        Card::B1 => 0,
        Card::B2 => 1,
        Card::B3 => 2,
        Card::B4 => 3,
        Card::B5 => 4,
        Card::B6 => 5,
        Card::B7 => 6,
        Card::B8 => 7,
        Card::B9 => 8,
        Card::Y1 => 9,
        Card::Y2 => 10,
        Card::Y3 => 11,
        Card::Y4 => 12,
        Card::Y5 => 13,
        Card::Y6 => 14,
        Card::Y7 => 15,
        Card::Y8 => 16,
        Card::Y9 => 17,
        Card::M1 => 18,
        Card::M2 => 19,
        Card::M3 => 20,
        Card::M4 => 21,
        Card::M5 => 22,
        Card::M6 => 23,
        Card::M7 => 24,
        Card::M8 => 25,
        Card::M9 => 26,
        Card::G1 => 27,
        Card::G2 => 28,
        Card::G3 => 29,
        Card::G4 => 30,
        Card::G5 => 31,
        Card::G6 => 32,
        Card::G7 => 33,
        Card::G8 => 34,
        Card::G9 => 35,
        Card::R1 => 36,
        Card::R2 => 37,
        Card::R3 => 38,
        Card::R4 => 39,
    }
}

/// Executable form of [`card_bit`].
pub fn card_index(c: Card) -> (r: u8)
    ensures
        r as int == card_bit(c),
{
    match c {
        Card::B1 => 0,
        Card::B2 => 1,
        Card::B3 => 2,
        Card::B4 => 3,
        Card::B5 => 4,
        Card::B6 => 5,
        Card::B7 => 6,
        Card::B8 => 7,
        Card::B9 => 8,
        Card::Y1 => 9,
        Card::Y2 => 10,
        Card::Y3 => 11,
        Card::Y4 => 12,
        Card::Y5 => 13,
        Card::Y6 => 14,
        Card::Y7 => 15,
        Card::Y8 => 16,
        Card::Y9 => 17,
        Card::M1 => 18,
        Card::M2 => 19,
        Card::M3 => 20,
        Card::M4 => 21,
        Card::M5 => 22,
        Card::M6 => 23,
        Card::M7 => 24,
        Card::M8 => 25,
        Card::M9 => 26,
        Card::G1 => 27,
        Card::G2 => 28,
        Card::G3 => 29,
        Card::G4 => 30,
        Card::G5 => 31,
        Card::G6 => 32,
        Card::G7 => 33,
        Card::G8 => 34,
        Card::G9 => 35,
        Card::R1 => 36,
        Card::R2 => 37,
        Card::R3 => 38,
        Card::R4 => 39,
    }
}

pub type RawCardSet = u64;

/// True iff bit `i` of `x` is set. Indices outside the 64-bit word are
/// never set.
pub open spec fn bit_set(x: u64, i: int) -> bool {
    0 <= i < 64 && (x >> (i as u64)) & 1u64 == 1u64
}

/// An unordered collection of cards as a fixed-width bitmask, one bit per
/// card value. Its mathematical view is the set of set bit positions.
#[derive(Copy, Clone, Debug, PartialEq, Eq, Structural)]
pub struct CardSet(pub RawCardSet);

impl View for CardSet {
    type V = Set<int>;

    open spec fn view(&self) -> Set<int> {
        Set::new(|i: int| bit_set(self.0, i))
    }
}

proof fn bv_or_bit(x: u64, y: u64, i: u64)
    by (bit_vector)
    requires
        i < 64,
    ensures
        ((x | y) >> i) & 1u64 == 1u64 <==> (((x >> i) & 1u64 == 1u64) || ((y >> i) & 1u64
            == 1u64)),
{
}

proof fn bv_and_bit(x: u64, y: u64, i: u64)
    by (bit_vector)
    requires
        i < 64,
    ensures
        ((x & y) >> i) & 1u64 == 1u64 <==> (((x >> i) & 1u64 == 1u64) && ((y >> i) & 1u64
            == 1u64)),
{
}

proof fn bv_not_bit(x: u64, i: u64)
    by (bit_vector)
    requires
        i < 64,
    ensures
        ((!x) >> i) & 1u64 == 1u64 <==> !((x >> i) & 1u64 == 1u64),
{
}

proof fn bv_single_bit(c: u64, i: u64)
    by (bit_vector)
    requires
        c < 64,
        i < 64,
    ensures
        ((1u64 << c) >> i) & 1u64 == 1u64 <==> i == c,
{
}

proof fn bv_zero_bit(i: u64)
    by (bit_vector)
    requires
        i < 64,
    ensures
        (0u64 >> i) & 1u64 == 0u64,
{
}

/// A word with a bit set is not zero, and the zero word has no bit set.
pub proof fn lemma_empty_iff_zero(a: CardSet)
    ensures
        a.0 == 0 <==> a@ == Set::<int>::empty(),
{
    broadcast use vstd::std_specs::bits::axiom_u64_trailing_zeros;

    if a.0 == 0 {
        assert forall|i: int| !a@.contains(i) by {
            if 0 <= i < 64 {
                bv_zero_bit(i as u64);
            }
        }
        assert(a@ =~= Set::<int>::empty());
    } else {
        let tz = u64::trailing_zeros(a.0);
        assert(bit_set(a.0, tz as int));
        assert(a@.contains(tz as int));
        assert(a@ != Set::<int>::empty());
    }
}

/// Bitwise or is set union.
pub proof fn lemma_union(a: CardSet, b: CardSet, r: CardSet)
    requires
        r.0 == a.0 | b.0,
    ensures
        r@ == a@.union(b@),
{
    assert forall|i: int| r@.contains(i) <==> a@.union(b@).contains(i) by {
        if 0 <= i < 64 {
            bv_or_bit(a.0, b.0, i as u64);
        }
    }
    assert(r@ =~= a@.union(b@));
}

/// Bitwise and is set intersection.
pub proof fn lemma_intersection(a: CardSet, b: CardSet, r: CardSet)
    requires
        r.0 == a.0 & b.0,
    ensures
        r@ == a@.intersect(b@),
{
    assert forall|i: int| r@.contains(i) <==> a@.intersect(b@).contains(i) by {
        if 0 <= i < 64 {
            bv_and_bit(a.0, b.0, i as u64);
        }
    }
    assert(r@ =~= a@.intersect(b@));
}

/// A one-bit word is a singleton set.
pub proof fn lemma_singleton(c: u64, r: CardSet)
    requires
        c < 64,
        r.0 == 1u64 << c,
    ensures
        r@ == set![c as int],
{
    assert forall|i: int| r@.contains(i) <==> set![c as int].contains(i) by {
        if 0 <= i < 64 {
            bv_single_bit(c, i as u64);
        }
    }
    assert(r@ =~= set![c as int]);
}

/// `a & !b == 0` says exactly that `a` is a subset of `b`.
pub proof fn lemma_covered(a: CardSet, b: CardSet)
    ensures
        a.0 & !b.0 == 0 <==> a@.subset_of(b@),
{
    let d = CardSet(a.0 & !b.0);
    lemma_empty_iff_zero(d);
    assert forall|i: int| d@.contains(i) <==> (a@.contains(i) && !b@.contains(i)) by {
        if 0 <= i < 64 {
            bv_and_bit(a.0, !b.0, i as u64);
            bv_not_bit(b.0, i as u64);
        }
    }
    if a.0 & !b.0 == 0 {
        assert forall|i: int| a@.contains(i) implies b@.contains(i) by {
            assert(!d@.contains(i));
        }
    } else {
        let w = lemma_nonzero_witness(d);
        assert(a@.contains(w) && !b@.contains(w));
        assert(!a@.subset_of(b@));
    }
}

/// A nonzero word names one of its set bits.
pub proof fn lemma_nonzero_witness(a: CardSet) -> (w: int)
    requires
        a.0 != 0,
    ensures
        a@.contains(w),
{
    broadcast use vstd::std_specs::bits::axiom_u64_trailing_zeros;

    let tz = u64::trailing_zeros(a.0);
    assert(bit_set(a.0, tz as int));
    tz as int
}

impl CardSet {
    /// The raw mask holding no card.
    pub const EMPTY: RawCardSet = 0u64;

    /// The raw mask with every bit of the word set.
    pub const EVERYTHING: RawCardSet = 0xFFFFFFFFFFFFFFFFu64;

    /// The singleton set of one card.
    pub fn from_card(card: Card) -> (r: Self)
        ensures
            r.0 == 1u64 << (card_bit(card) as u64),
            r@ == set![card_bit(card)],
    {
        let idx = card_index(card);
        let r = CardSet(1u64 << idx);
        proof {
            lemma_singleton(idx as u64, r);
        }
        r
    }

    /// The singleton set of the card at a given bit position.
    pub fn from_bit_index(value: u32) -> (r: Self)
        requires
            value < 64,
        ensures
            r.0 == 1u64 << (value as u64),
            r@ == set![value as int],
    {
        let r = CardSet(1u64 << value);
        proof {
            lemma_singleton(value as u64, r);
        }
        r
    }

    /// The union of the singleton sets of the given cards.
    pub fn from_cards(cards: &[Card]) -> (r: Self)
        ensures
            r@ == cards_bits(cards@),
    {
        let mut acc = CardSet(0);
        proof {
            lemma_empty_iff_zero(acc);
            assert(acc@ =~= cards_bits(cards@.take(0)));
        }
        let n = cards.len();
        let mut k: usize = 0;
        while k < n
            invariant
                n == cards@.len(),
                k <= n,
                acc@ == cards_bits(cards@.take(k as int)),
            decreases n - k,
        {
            let c = cards[k];
            let one = CardSet::from_card(c);
            let next = acc.add(one);
            proof {
                assert(cards@.take(k + 1).drop_last() =~= cards@.take(k as int));
                assert(cards@.take(k + 1).last() == c);
                assert(next@ =~= cards_bits(cards@.take(k + 1))) by {
                    lemma_cards_bits_push_pub(cards@.take(k + 1));
                }
            }
            acc = next;
            k = k + 1;
        }
        proof {
            assert(cards@.take(n as int) =~= cards@);
        }
        acc
    }

    /// Wraps a raw bitmask.
    pub fn from_raw(raw: RawCardSet) -> (r: Self)
        ensures
            r.0 == raw,
    {
        CardSet(raw)
    }

    /// Set union.
    pub fn add(&self, cards: Self) -> (r: Self)
        ensures
            r.0 == self.0 | cards.0,
            r@ == self@.union(cards@),
    {
        let r = CardSet(self.0 | cards.0);
        proof {
            lemma_union(*self, cards, r);
        }
        r
    }

    /// Set intersection.
    pub fn intersect(&self, cards: Self) -> (r: Self)
        ensures
            r.0 == self.0 & cards.0,
            r@ == self@.intersect(cards@),
    {
        let r = CardSet(self.0 & cards.0);
        proof {
            lemma_intersection(*self, cards, r);
        }
        r
    }

    /// Membership test for one card.
    pub fn contains(&self, card: Card) -> (r: bool)
        ensures
            r == self@.contains(card_bit(card)),
    {
        let single = CardSet::from_card(card);
        let r = self.overlaps_with(single);
        proof {
            if self@.contains(card_bit(card)) {
                assert(self@.intersect(single@).contains(card_bit(card)));
            } else {
                assert(self@.intersect(single@) =~= Set::<int>::empty());
            }
        }
        r
    }

    /// True iff the two sets share a member.
    pub fn overlaps_with(&self, cards: CardSet) -> (r: bool)
        ensures
            r == !(self@.intersect(cards@) == Set::<int>::empty()),
    {
        let both = self.intersect(cards);
        let r = both.0 != 0;
        proof {
            lemma_empty_iff_zero(both);
        }
        r
    }

    /// The raw bitmask.
    pub fn get_raw(&self) -> (r: RawCardSet)
        ensures
            r == self.0,
    {
        self.0
    }

    /// True iff every member of `self` is a member of `cover`.
    pub fn is_covered_by(&self, cover: CardSet) -> (r: bool)
        ensures
            r == self@.subset_of(cover@),
    {
        let r = self.0 & !cover.0 == 0;
        proof {
            lemma_covered(*self, cover);
        }
        r
    }

    /// The full mask of the first classified suit that this set touches,
    /// or the empty mask if it touches none.
    pub fn get_suit(&self) -> (r: Self)
        ensures
            r.0 == suit_of_mask(self.0),
    {
        if self.0 & suit::BLUE != 0 {
            CardSet(suit::BLUE)
        } else if self.0 & suit::YELLOW != 0 {
            CardSet(suit::YELLOW)
        } else if self.0 & suit::MAGENTA != 0 {
            CardSet(suit::MAGENTA)
        } else if self.0 & suit::GREEN != 0 {
            CardSet(suit::GREEN)
        } else if self.0 & suit::ROCKETS != 0 {
            CardSet(suit::ROCKETS)
        } else {
            CardSet(0)
        }
    }

    /// The singleton set of the member with the greatest bit position.
    pub fn highest_card(&self) -> (r: Self)
        requires
            self.0 != 0,
        ensures
            r.0 == 1u64 << (top_bit(self.0) as u64),
            r@ == set![top_bit(self.0)],
    {
        proof {
            broadcast use vstd::std_specs::bits::axiom_u64_leading_zeros;

        }
        let lz = self.0.leading_zeros();
        let r = Self::from_bit_index(64 - lz - 1);
        proof {
            let x = self.0;
            let mu: u64 = (63 - lz as int) as u64;
            assert((x >> mu) & 1u64 == 1u64) by (bit_vector)
                requires
                    (x >> mu) & 1u64 != 0u64,
            ;
            assert(is_max_bit(x, mu as int));
            lemma_top_bit_unique(x, mu as int);
        }
        r
    }

    /// The number of members.
    pub fn num_set(&self) -> (r: u32)
        ensures
            r as nat == self@.len(),
            r <= 64,
    {
        let mut count: u32 = 0;
        let mut i: u32 = 0;
        while i < 64
            invariant
                i <= 64,
                count <= i,
                count as nat == count_bits_upto(self.0, i as int),
            decreases 64 - i,
        {
            if (self.0 >> (i as u64)) & 1u64 == 1u64 {
                count = count + 1;
            }
            i = i + 1;
        }
        proof {
            lemma_count_is_len(self.0, 64);
            assert(bits_upto(self.0, 64) =~= self@);
        }
        count
    }
}

/// The suit mask a set is classified under: the first of the five suit
/// ranges that it overlaps, or zero if it overlaps none.
pub open spec fn suit_of_mask(x: u64) -> u64 {
    if x & suit::BLUE != 0 {
        suit::BLUE
    } else if x & suit::YELLOW != 0 {
        suit::YELLOW
    } else if x & suit::MAGENTA != 0 {
        suit::MAGENTA
    } else if x & suit::GREEN != 0 {
        suit::GREEN
    } else if x & suit::ROCKETS != 0 {
        suit::ROCKETS
    } else {
        0
    }
}

/// The suit mask that contains a given bit position, or zero for a
/// position outside the card universe.
pub open spec fn suit_mask_of_bit(i: int) -> u64 {
    if 0 <= i < 9 {
        suit::BLUE
    } else if 9 <= i < 18 {
        suit::YELLOW
    } else if 18 <= i < 27 {
        suit::MAGENTA
    } else if 27 <= i < 36 {
        suit::GREEN
    } else if 36 <= i < 40 {
        suit::ROCKETS
    } else {
        0
    }
}

/// `m` is the greatest set bit of `x`.
pub open spec fn is_max_bit(x: u64, m: int) -> bool {
    bit_set(x, m) && forall|j: int| m < j < 64 ==> !bit_set(x, j)
}

/// The greatest set bit of a word.
pub open spec fn top_bit(x: u64) -> int {
    choose|m: int| is_max_bit(x, m)
}

/// A word with a known greatest set bit pins down `top_bit`.
pub proof fn lemma_top_bit_unique(x: u64, m: int)
    requires
        is_max_bit(x, m),
    ensures
        top_bit(x) == m,
{
    let t = top_bit(x);
    assert(is_max_bit(x, t));
    if t < m {
        assert(bit_set(x, m));
    } else if t > m {
        assert(bit_set(x, t));
    }
}

/// A nonzero word has a greatest set bit.
pub proof fn lemma_top_bit(x: u64)
    requires
        x != 0,
    ensures
        is_max_bit(x, top_bit(x)),
        0 <= top_bit(x) < 64,
{
    broadcast use vstd::std_specs::bits::axiom_u64_leading_zeros;

    let lz = vstd::std_specs::bits::u64_leading_zeros(x);
    let mu: u64 = (63 - lz) as u64;
    assert((x >> mu) & 1u64 == 1u64) by (bit_vector)
        requires
            (x >> mu) & 1u64 != 0u64,
    ;
    assert(is_max_bit(x, mu as int));
    lemma_top_bit_unique(x, mu as int);
}

/// The set bits of `x` below position `n`.
pub open spec fn bits_upto(x: u64, n: int) -> Set<int> {
    Set::new(|i: int| bit_set(x, i) && i < n)
}

/// The number of set bits of `x` below position `n`.
pub open spec fn count_bits_upto(x: u64, n: int) -> nat
    decreases n,
{
    if n <= 0 {
        0
    } else {
        count_bits_upto(x, n - 1) + (if bit_set(x, n - 1) {
            1nat
        } else {
            0nat
        })
    }
}

proof fn lemma_count_is_len(x: u64, n: int)
    requires
        0 <= n <= 64,
    ensures
        bits_upto(x, n).finite(),
        count_bits_upto(x, n) == bits_upto(x, n).len(),
    decreases n,
{
    if n == 0 {
        assert(bits_upto(x, 0) =~= Set::<int>::empty());
    } else {
        lemma_count_is_len(x, n - 1);
        if bit_set(x, n - 1) {
            assert(bits_upto(x, n) =~= bits_upto(x, n - 1).insert(n - 1));
            assert(!bits_upto(x, n - 1).contains(n - 1));
        } else {
            assert(bits_upto(x, n) =~= bits_upto(x, n - 1));
        }
    }
}

/// Whether a word overlaps another, stated on the raw masks.
pub proof fn lemma_overlap_raw(a: CardSet, b: CardSet)
    ensures
        (a.0 & b.0 != 0) <==> !(a@.intersect(b@) == Set::<int>::empty()),
{
    let d = CardSet(a.0 & b.0);
    lemma_intersection(a, b, d);
    lemma_empty_iff_zero(d);
}

/// Intersection is commutative on raw masks.
pub proof fn lemma_and_comm(x: u64, y: u64)
    by (bit_vector)
    ensures
        x & y == y & x,
{
}

/// Masking with the full word changes nothing.
pub proof fn lemma_and_everything(x: u64)
    by (bit_vector)
    ensures
        x & 0xFFFFFFFFFFFFFFFFu64 == x,
{
}

/// Per-bit reading of an intersection.
pub proof fn lemma_bit_and(x: u64, y: u64, i: int)
    requires
        0 <= i < 64,
    ensures
        bit_set(x & y, i) <==> (bit_set(x, i) && bit_set(y, i)),
{
    bv_and_bit(x, y, i as u64);
}

/// Per-bit reading of a union.
pub proof fn lemma_bit_or(x: u64, y: u64, i: int)
    requires
        0 <= i < 64,
    ensures
        bit_set(x | y, i) <==> (bit_set(x, i) || bit_set(y, i)),
{
    bv_or_bit(x, y, i as u64);
}

/// Per-bit reading of a one-bit word.
pub proof fn lemma_bit_single(c: u64, i: int)
    requires
        c < 64,
        0 <= i < 64,
    ensures
        bit_set(1u64 << c, i) <==> i == c as int,
{
    bv_single_bit(c, i as u64);
}

/// Per-bit reading of a complement.
pub proof fn lemma_bit_not(x: u64, i: int)
    requires
        0 <= i < 64,
    ensures
        bit_set(!x, i) <==> !bit_set(x, i),
{
    bv_not_bit(x, i as u64);
}

/// Which bit positions each suit mask holds.
pub proof fn lemma_suit_bits(i: int)
    requires
        0 <= i < 64,
    ensures
        bit_set(suit::BLUE, i) <==> 0 <= i < 9,
        bit_set(suit::YELLOW, i) <==> 9 <= i < 18,
        bit_set(suit::MAGENTA, i) <==> 18 <= i < 27,
        bit_set(suit::GREEN, i) <==> 27 <= i < 36,
        bit_set(suit::ROCKETS, i) <==> 36 <= i < 40,
        bit_set(suit::UNIVERSE, i) <==> 0 <= i < 40,
{
    let iu = i as u64;
    assert((0x1FFu64 >> iu) & 1u64 == 1u64 <==> iu < 9) by (bit_vector)
        requires
            iu < 64,
    ;
    assert((0x3FE00u64 >> iu) & 1u64 == 1u64 <==> (9 <= iu < 18)) by (bit_vector)
        requires
            iu < 64,
    ;
    assert((0x7FC0000u64 >> iu) & 1u64 == 1u64 <==> (18 <= iu < 27)) by (bit_vector)
        requires
            iu < 64,
    ;
    assert((0xFF8000000u64 >> iu) & 1u64 == 1u64 <==> (27 <= iu < 36)) by (bit_vector)
        requires
            iu < 64,
    ;
    assert((0xF000000000u64 >> iu) & 1u64 == 1u64 <==> (36 <= iu < 40)) by (bit_vector)
        requires
            iu < 64,
    ;
    assert((0xFFFFFFFFFFu64 >> iu) & 1u64 == 1u64 <==> iu < 40) by (bit_vector)
        requires
            iu < 64,
    ;
}

/// A bit of a word that lies inside the card universe sits below 40.
pub proof fn lemma_universe_bit(h: u64, p: int)
    requires
        h & !suit::UNIVERSE == 0,
        bit_set(h, p),
    ensures
        0 <= p < 40,
{
    let pu = p as u64;
    assert(pu < 40) by (bit_vector)
        requires
            h & !0xFFFFFFFFFFu64 == 0,
            pu < 64,
            (h >> pu) & 1u64 == 1u64,
    ;
}

/// Classifying a single card finds the suit range that holds its bit.
pub proof fn lemma_suit_of_single(c: int)
    requires
        0 <= c < 40,
    ensures
        suit_of_mask(1u64 << (c as u64)) == suit_mask_of_bit(c),
{
    let cu = c as u64;
    assert(((1u64 << cu) & 0x1FFu64 != 0) == (cu < 9)) by (bit_vector)
        requires
            cu < 64,
    ;
    assert(((1u64 << cu) & 0x3FE00u64 != 0) == (9 <= cu && cu < 18)) by (bit_vector)
        requires
            cu < 64,
    ;
    assert(((1u64 << cu) & 0x7FC0000u64 != 0) == (18 <= cu && cu < 27)) by (bit_vector)
        requires
            cu < 64,
    ;
    assert(((1u64 << cu) & 0xFF8000000u64 != 0) == (27 <= cu && cu < 36)) by (bit_vector)
        requires
            cu < 64,
    ;
    assert(((1u64 << cu) & 0xF000000000u64 != 0) == (36 <= cu && cu < 40)) by (bit_vector)
        requires
            cu < 64,
    ;
}

/// A word with a set bit is not zero.
pub proof fn lemma_nonzero_of_bit(x: u64, i: int)
    requires
        bit_set(x, i),
    ensures
        x != 0,
{
    if x == 0 {
        let iu = i as u64;
        assert((0u64 >> iu) & 1u64 == 0u64) by (bit_vector);
    }
}

/// Overlap with a one-bit word reads that bit.
pub proof fn lemma_single_overlap(x: u64, c: u64)
    requires
        c < 64,
    ensures
        (x & (1u64 << c) != 0) <==> bit_set(x, c as int),
{
    assert((x & (1u64 << c) != 0) <==> ((x >> c) & 1u64 == 1u64)) by (bit_vector)
        requires
            c < 64,
    ;
}

/// Removing bits from a word cannot disturb its disjointness.
pub proof fn lemma_and_not_disjoint(x: u64, y: u64, m: u64)
    by (bit_vector)
    ensures
        x & y == 0 ==> (x & !m) & (y & !m) == 0,
{
}

/// Removing bits keeps a word inside any region it lay in.
pub proof fn lemma_and_not_region(x: u64, u: u64, m: u64)
    by (bit_vector)
    ensures
        x & u == 0 ==> (x & !m) & u == 0,
{
}

/// A word pointwise below another has no greater bit count.
pub proof fn lemma_count_le(x: u64, y: u64, n: int)
    requires
        0 <= n <= 64,
        forall|i: int| 0 <= i < 64 && bit_set(y, i) ==> bit_set(x, i),
    ensures
        count_bits_upto(y, n) <= count_bits_upto(x, n),
    decreases n,
{
    if n > 0 {
        lemma_count_le(x, y, n - 1);
    }
}

/// Dropping a set bit strictly lowers the bit count.
pub proof fn lemma_count_lt(x: u64, y: u64, n: int, b: int)
    requires
        0 <= b < n <= 64,
        forall|i: int| 0 <= i < 64 && bit_set(y, i) ==> bit_set(x, i),
        bit_set(x, b),
        !bit_set(y, b),
    ensures
        count_bits_upto(y, n) < count_bits_upto(x, n),
    decreases n,
{
    if b == n - 1 {
        lemma_count_le(x, y, n - 1);
    } else {
        lemma_count_lt(x, y, n - 1, b);
    }
}

/// A set whose members all sit below 40 lies inside the card universe.
pub proof fn lemma_in_universe(x: CardSet)
    requires
        forall|i: int| x@.contains(i) ==> 0 <= i < 40,
    ensures
        x.0 & !suit::UNIVERSE == 0,
{
    if x.0 & !suit::UNIVERSE != 0 {
        let d = CardSet(x.0 & !suit::UNIVERSE);
        let w = lemma_nonzero_witness(d);
        lemma_bit_and(x.0, !suit::UNIVERSE, w);
        lemma_bit_not(suit::UNIVERSE, w);
        lemma_suit_bits(w);
        assert(x@.contains(w));
    }
}

/// The set of bit positions of a sequence of cards.
pub open spec fn cards_bits(s: Seq<Card>) -> Set<int> {
    Set::new(|i: int| exists|k: int| 0 <= k < s.len() && card_bit(s[k]) == i)
}

pub proof fn lemma_cards_bits_push_pub(s: Seq<Card>)
    requires
        s.len() > 0,
    ensures
        cards_bits(s) == cards_bits(s.drop_last()).union(set![card_bit(s.last())]),
{
    let t = s.drop_last();
    assert forall|i: int|
        cards_bits(s).contains(i) <==> cards_bits(t).union(set![card_bit(s.last())]).contains(
            i,
        ) by {
        if cards_bits(s).contains(i) {
            let k = choose|k: int| 0 <= k < s.len() && card_bit(s[k]) == i;
            if k < s.len() - 1 {
                assert(t[k] == s[k]);
                assert(cards_bits(t).contains(i));
            } else {
                assert(s.last() == s[k]);
            }
        }
        if cards_bits(t).contains(i) {
            let k = choose|k: int| 0 <= k < t.len() && card_bit(t[k]) == i;
            assert(s[k] == t[k]);
            assert(cards_bits(s).contains(i));
        }
        if i == card_bit(s.last()) {
            assert(0 <= s.len() - 1 < s.len() && card_bit(s[s.len() - 1]) == i);
            assert(cards_bits(s).contains(i));
        }
    }
    assert(cards_bits(s) =~= cards_bits(t).union(set![card_bit(s.last())]));
}

} // verus!
