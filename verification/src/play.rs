use vstd::prelude::*;

use crate::card::{bit_set, is_max_bit, suit_mask_of_bit, top_bit, CardSet, RawCardSet};
use crate::player::{PlayerIndex, NUM_PLAYERS};
use crate::suit;

verus! {

broadcast use vstd::array::group_array_axioms;

/// The hands of all players, indexed by seat.
pub type Hands = [CardSet; NUM_PLAYERS];

/// The bit position of the card that wins a trick: the highest played
/// card among the lead suit and the rockets.
pub open spec fn trick_winner_bit(cards: u64, lead: u64) -> int {
    top_bit(cards & (lead | suit::ROCKETS))
}

/// The outcome of one trick: the union of the played cards and the full
/// suit mask of the card the leader played.
#[derive(Debug, PartialEq, Eq, Structural)]
pub struct Play {
    pub cards: CardSet,
    pub lead_suit: CardSet,
}

impl Play {
    /// The singleton set of the card that wins this trick.
    pub fn get_trick_winner(&self) -> (r: CardSet)
        requires
            self.cards.0 & (self.lead_suit.0 | suit::ROCKETS) != 0,
        ensures
            r.0 == 1u64 << (trick_winner_bit(self.cards.0, self.lead_suit.0) as u64),
            r@ == set![trick_winner_bit(self.cards.0, self.lead_suit.0)],
    {
        let eligible_cards = self.lead_suit.add(CardSet(suit::ROCKETS));
        let relevant_cards = self.cards.intersect(eligible_cards);
        relevant_cards.highest_card()
    }

    /// The union of the cards played in this trick.
    pub fn cards(&self) -> (r: CardSet)
        ensures
            r == self.cards,
    {
        self.cards
    }
}

/// `i` is the least set bit of `x`.
pub open spec fn is_lowest_bit(x: u64, i: int) -> bool {
    bit_set(x, i) && forall|j: int| 0 <= j < i ==> !bit_set(x, j)
}

/// `i` is the least set bit of `x` strictly above position `p`.
pub open spec fn is_next_bit(x: u64, p: int, i: int) -> bool {
    bit_set(x, i) && p < i && forall|j: int| p < j < i ==> !bit_set(x, j)
}

/// Least set bit of a nonzero word.
fn lowest_set_bit(x: u64) -> (r: u32)
    requires
        x != 0,
    ensures
        r < 64,
        is_lowest_bit(x, r as int),
{
    proof {
        broadcast use vstd::std_specs::bits::axiom_u64_trailing_zeros;

    }
    x.trailing_zeros()
}

/// Least set bit of `x` strictly above position `p`, if any.
fn next_set_bit_above(x: u64, p: u32) -> (r: Option<u32>)
    requires
        p < 64,
    ensures
        match r {
            Some(i) => i < 64 && is_next_bit(x, p as int, i as int),
            None => forall|j: int| p < j < 64 ==> !bit_set(x, j),
        },
{
    let mut i: u32 = p + 1;
    while i < 64
        invariant
            p < i <= 64,
            forall|j: int| p < j < i ==> !bit_set(x, j),
        decreases 64 - i,
    {
        if (x >> (i as u64)) & 1u64 == 1u64 {
            return Some(i);
        }
        i = i + 1;
    }
    None
}

/// A cyclic cursor over the set bits of a hand, restricted by a legality
/// mask. `position` always rests on a set bit of `hand & mask` while the
/// cursor is active.
#[derive(Clone, Copy, Debug)]
pub struct PositionCounter {
    pub hand: RawCardSet,
    pub mask: RawCardSet,
    pub position: u32,
}

impl PositionCounter {
    /// The bits this cursor may rest on.
    pub open spec fn legal_mask(self) -> u64 {
        self.hand & self.mask
    }

    /// The cursor rests on a legal bit.
    pub open spec fn active(self) -> bool {
        self.legal_mask() != 0 && self.position < 64 && bit_set(
            self.legal_mask(),
            self.position as int,
        )
    }

    /// A cursor over a whole hand, resting on its lowest card.
    pub fn new(hand: CardSet) -> (r: PositionCounter)
        ensures
            r.hand == hand.0,
            r.mask == CardSet::EVERYTHING,
            hand.0 != 0 ==> r.active() && is_lowest_bit(r.legal_mask(), r.position as int),
            hand.0 == 0 ==> r.position == 0,
    {
        proof {
            let h = hand.0;
            assert(h & 0xFFFFFFFFFFFFFFFFu64 == h) by (bit_vector);
        }
        let position = if hand.0 == 0 {
            0
        } else {
            lowest_set_bit(hand.0)
        };
        PositionCounter { hand: hand.0, mask: CardSet::EVERYTHING, position }
    }

    /// The singleton set of the card under the cursor.
    pub fn get_card(&self) -> (r: CardSet)
        requires
            self.position < 64,
        ensures
            r.0 == 1u64 << (self.position as u64),
            r@ == set![self.position as int],
    {
        CardSet::from_bit_index(self.position)
    }

    /// The full hand this cursor walks.
    pub fn get_hand(&self) -> (r: RawCardSet)
        ensures
            r == self.hand,
    {
        self.hand
    }

    /// Moves the cursor to the next legal bit above, or wraps it back to
    /// the lowest legal bit, reporting the wrap.
    pub fn increment(&mut self) -> (overflowed: bool)
        requires
            old(self).active(),
        ensures
            final(self).hand == old(self).hand,
            final(self).mask == old(self).mask,
            final(self).active(),
            !overflowed ==> is_next_bit(
                old(self).legal_mask(),
                old(self).position as int,
                final(self).position as int,
            ),
            overflowed ==> is_lowest_bit(old(self).legal_mask(), final(self).position as int)
                && (forall|j: int|
                old(self).position < j < 64 ==> !bit_set(old(self).legal_mask(), j)),
    {
        let lm = self.hand & self.mask;
        match next_set_bit_above(lm, self.position) {
            Some(i) => {
                self.position = i;
                false
            },
            None => {
                self.position = lowest_set_bit(lm);
                true
            },
        }
    }

    /// Installs a new legality mask and rests the cursor on the lowest
    /// legal bit.
    pub fn reset_with_mask(&mut self, mask: CardSet)
        requires
            old(self).hand & mask.0 != 0,
        ensures
            final(self).hand == old(self).hand,
            final(self).mask == mask.0,
            final(self).active(),
            is_lowest_bit(final(self).legal_mask(), final(self).position as int),
    {
        self.mask = mask.0;
        self.position = lowest_set_bit(self.hand & self.mask);
    }
}

/// The legality mask a follower is reset with: the lead suit if their
/// hand touches it, else the whole word.
pub open spec fn follow_mask(hand: u64, lead: u64) -> u64 {
    if lead & hand != 0 {
        lead
    } else {
        CardSet::EVERYTHING
    }
}

/// The cards the follower holding `hand` may play when the leader plays
/// the card at bit `c0`.
pub open spec fn legal_choices(hand: u64, c0: int) -> u64 {
    hand & follow_mask(hand, suit_mask_of_bit(c0))
}

/// One legal card per seat, in rotated seating order (seat 0 leads): the
/// leader plays any card of their hand, every follower plays from their
/// legal choices under the suit of the leader's card.
pub open spec fn legal_tuple(h: Seq<u64>, t: Seq<int>) -> bool {
    &&& h.len() == 4
    &&& t.len() == 4
    &&& bit_set(h[0], t[0])
    &&& forall|j: int| 1 <= j < 4 ==> bit_set(#[trigger] legal_choices(h[j], t[0]), t[j])
}

/// Strict lexicographic order on card tuples, in seating order.
pub open spec fn tuple_lt(a: Seq<int>, b: Seq<int>) -> bool {
    exists|d: int|
        #![trigger a[d], b[d]]
        0 <= d < 4 && a[d] < b[d] && (forall|i: int| 0 <= i < d ==> a[i] == b[i])
}

/// Reflexive lexicographic order on card tuples.
pub open spec fn tuple_le(a: Seq<int>, b: Seq<int>) -> bool {
    a == b || tuple_lt(a, b)
}

/// The lexicographically least legal tuple.
pub open spec fn is_min_tuple(h: Seq<u64>, t: Seq<int>) -> bool {
    legal_tuple(h, t) && forall|u: Seq<int>| legal_tuple(h, u) ==> tuple_le(t, u)
}

/// `b` is the next legal tuple after `a`: legal, above `a`, and no legal
/// tuple lies strictly between.
pub open spec fn is_successor_tuple(h: Seq<u64>, a: Seq<int>, b: Seq<int>) -> bool {
    legal_tuple(h, b) && tuple_lt(a, b) && (forall|u: Seq<int>|
        legal_tuple(h, u) && tuple_lt(a, u) ==> tuple_le(b, u))
}

/// No legal tuple lies above `a`.
pub open spec fn no_tuple_after(h: Seq<u64>, a: Seq<int>) -> bool {
    forall|u: Seq<int>| legal_tuple(h, u) ==> !tuple_lt(a, u)
}

/// The set of bit positions a tuple plays.
pub open spec fn tuple_bits(t: Seq<int>) -> Set<int> {
    set![t[0], t[1], t[2], t[3]]
}

/// The raw bitmask of the cards a tuple plays.
pub open spec fn tuple_mask(t: Seq<int>) -> u64 {
    (1u64 << (t[0] as u64)) | (1u64 << (t[1] as u64)) | (1u64 << (t[2] as u64)) | (1u64 << (
    t[3] as u64))
}

/// The hands of all seats, rotated so the leader sits first.
pub open spec fn rotated_hands(hands: Seq<CardSet>, leader: int) -> Seq<u64> {
    Seq::new(4, |j: int| hands[(leader + j) % 4].0)
}

/// Two tuples are equal or ordered one way or the other.
pub proof fn lemma_tuple_total(a: Seq<int>, b: Seq<int>)
    requires
        a.len() == 4,
        b.len() == 4,
    ensures
        a == b || tuple_lt(a, b) || tuple_lt(b, a),
{
    if a[0] == b[0] && a[1] == b[1] && a[2] == b[2] && a[3] == b[3] {
        assert(a =~= b);
    } else {
        let d = choose|d: int| 0 <= d < 4 && a[d] != b[d] && (forall|i: int|
            0 <= i < d ==> a[i] == b[i]);
        if a[0] != b[0] {
            assert(0 <= 0 < 4 && a[0] != b[0] && (forall|i: int| 0 <= i < 0 ==> a[i] == b[i]));
        } else if a[1] != b[1] {
            assert(0 <= 1 < 4 && a[1] != b[1] && (forall|i: int| 0 <= i < 1 ==> a[i] == b[i]));
        } else if a[2] != b[2] {
            assert(0 <= 2 < 4 && a[2] != b[2] && (forall|i: int| 0 <= i < 2 ==> a[i] == b[i]));
        } else {
            assert(0 <= 3 < 4 && a[3] != b[3] && (forall|i: int| 0 <= i < 3 ==> a[i] == b[i]));
        }
        assert(0 <= d < 4 && a[d] != b[d] && (forall|i: int| 0 <= i < d ==> a[i] == b[i]));
        if a[d] < b[d] {
            assert(tuple_lt(a, b));
        } else {
            assert(tuple_lt(b, a));
        }
    }
}

/// The strict order cannot hold both ways.
pub proof fn lemma_tuple_asym(a: Seq<int>, b: Seq<int>)
    requires
        a.len() == 4,
        b.len() == 4,
        tuple_lt(a, b),
    ensures
        !tuple_lt(b, a),
{
    if tuple_lt(b, a) {
        let d1 = choose|d: int|
            #![trigger a[d], b[d]]
            0 <= d < 4 && a[d] < b[d] && (forall|i: int| 0 <= i < d ==> a[i] == b[i]);
        let d2 = choose|d: int|
            #![trigger b[d], a[d]]
            0 <= d < 4 && b[d] < a[d] && (forall|i: int| 0 <= i < d ==> b[i] == a[i]);
        if d1 < d2 {
            assert(b[d1] == a[d1]);
        } else if d2 < d1 {
            assert(a[d2] == b[d2]);
        }
    }
}

/// Establishes `a <= b` coordinate by coordinate.
proof fn lemma_le_pointwise(a: Seq<int>, b: Seq<int>)
    requires
        a.len() == 4,
        b.len() == 4,
        a[0] <= b[0],
        a[0] == b[0] ==> a[1] <= b[1],
        a[0] == b[0] && a[1] == b[1] ==> a[2] <= b[2],
        a[0] == b[0] && a[1] == b[1] && a[2] == b[2] ==> a[3] <= b[3],
    ensures
        tuple_le(a, b),
{
    if a[0] == b[0] && a[1] == b[1] && a[2] == b[2] && a[3] == b[3] {
        assert(a =~= b);
    } else if a[0] < b[0] {
        assert(0 <= 0 < 4 && a[0] < b[0] && (forall|i: int| 0 <= i < 0 ==> a[i] == b[i]));
        assert(tuple_lt(a, b));
    } else if a[1] < b[1] {
        assert(0 <= 1 < 4 && a[1] < b[1] && (forall|i: int| 0 <= i < 1 ==> a[i] == b[i]));
        assert(tuple_lt(a, b));
    } else if a[2] < b[2] {
        assert(0 <= 2 < 4 && a[2] < b[2] && (forall|i: int| 0 <= i < 2 ==> a[i] == b[i]));
        assert(tuple_lt(a, b));
    } else {
        assert(0 <= 3 < 4 && a[3] < b[3] && (forall|i: int| 0 <= i < 3 ==> a[i] == b[i]));
        assert(tuple_lt(a, b));
    }
}

/// A legal tuple needs every hand nonempty.
pub proof fn lemma_legal_needs_hands(h: Seq<u64>, u: Seq<int>)
    requires
        legal_tuple(h, u),
    ensures
        forall|j: int| 0 <= j < 4 ==> #[trigger] h[j] != 0,
{
    assert forall|j: int| 0 <= j < 4 implies #[trigger] h[j] != 0 by {
        if j == 0 {
            assert(bit_set(h[0], u[0]));
        } else {
            assert(bit_set(legal_choices(h[j], u[0]), u[j]));
            crate::card::lemma_bit_and(h[j], follow_mask(h[j], suit_mask_of_bit(u[0])), u[j]);
        }
        assert(h[j] != 0) by {
            if h[j] == 0 {
                assert(!bit_set(0u64, u[j])) by {
                    lemma_zero_has_no_bit(u[j]);
                }
                assert(!bit_set(0u64, u[0])) by {
                    lemma_zero_has_no_bit(u[0]);
                }
            }
        }
    }
}

proof fn lemma_zero_has_no_bit(i: int)
    ensures
        !bit_set(0u64, i),
{
    if 0 <= i < 64 {
        let iu = i as u64;
        assert((0u64 >> iu) & 1u64 == 0u64) by (bit_vector);
    }
}

/// The least legal tuple: every cursor on the lowest bit of its legal
/// set.
proof fn lemma_min_tuple(h: Seq<u64>, t: Seq<int>)
    requires
        h.len() == 4,
        t.len() == 4,
        legal_tuple(h, t),
        is_lowest_bit(h[0], t[0]),
        forall|j: int| 1 <= j < 4 ==> is_lowest_bit(#[trigger] legal_choices(h[j], t[0]), t[j]),
    ensures
        is_min_tuple(h, t),
{
    assert forall|u: Seq<int>| legal_tuple(h, u) implies tuple_le(t, u) by {
        assert(bit_set(h[0], u[0]));
        assert(t[0] <= u[0]);
        if t[0] == u[0] {
            assert forall|j: int| 1 <= j < 4 implies t[j] <= #[trigger] u[j] by {
                assert(bit_set(legal_choices(h[j], u[0]), u[j]));
                assert(is_lowest_bit(legal_choices(h[j], t[0]), t[j]));
            }
        }
        lemma_le_pointwise(t, u);
    }
}

/// Advancing the cursor at seat `k` to its next legal bit, after every
/// deeper cursor wrapped to its lowest legal bit, yields the successor
/// tuple.
proof fn lemma_successor_inner(h: Seq<u64>, a: Seq<int>, b: Seq<int>, k: int)
    requires
        h.len() == 4,
        a.len() == 4,
        b.len() == 4,
        1 <= k < 4,
        legal_tuple(h, a),
        forall|i: int| 0 <= i < k ==> a[i] == b[i],
        is_next_bit(legal_choices(h[k], a[0]), a[k], b[k]),
        forall|j: int| k < j < 4 ==> is_lowest_bit(#[trigger] legal_choices(h[j], a[0]), b[j]),
        forall|j: int|
            k < j < 4 ==> (forall|m: int|
                a[j] < m < 64 ==> !bit_set(#[trigger] legal_choices(h[j], a[0]), m)),
    ensures
        is_successor_tuple(h, a, b),
{
    assert(b[0] == a[0]);
    assert forall|j: int| 1 <= j < 4 implies bit_set(#[trigger] legal_choices(h[j], b[0]), b[j]) by {
        if j < k {
            assert(bit_set(legal_choices(h[j], a[0]), a[j]));
        } else if j == k {
        } else {
            assert(is_lowest_bit(legal_choices(h[j], a[0]), b[j]));
        }
    }
    assert(legal_tuple(h, b));
    assert(0 <= k < 4 && a[k] < b[k] && (forall|i: int| 0 <= i < k ==> a[i] == b[i]));
    assert(tuple_lt(a, b));
    assert forall|u: Seq<int>| legal_tuple(h, u) && tuple_lt(a, u) implies tuple_le(b, u) by {
        let d = choose|d: int|
            #![trigger a[d], u[d]]
            0 <= d < 4 && a[d] < u[d] && (forall|i: int| 0 <= i < d ==> a[i] == u[i]);
        if d > k {
            assert(u[0] == a[0]);
            assert(bit_set(legal_choices(h[d], a[0]), u[d]));
            assert(u[d] < 64);
            assert(false);
        } else if d == k {
            assert(u[0] == a[0]);
            assert(bit_set(legal_choices(h[k], a[0]), u[k]));
            assert(u[k] >= b[k]);
            assert forall|c: int| 0 <= c < 4 implies b[c] <= #[trigger] u[c] by {
                if c < k {
                    assert(b[c] == a[c] && a[c] == u[c]);
                } else if c == k {
                } else {
                    assert(bit_set(legal_choices(h[c], a[0]), u[c]));
                    assert(is_lowest_bit(legal_choices(h[c], a[0]), b[c]));
                }
            }
            lemma_le_pointwise(b, u);
        } else {
            assert(forall|i: int| 0 <= i < d ==> b[i] == u[i]);
            assert(0 <= d < 4 && b[d] < u[d] && (forall|i: int| 0 <= i < d ==> b[i] == u[i]));
            assert(tuple_lt(b, u));
        }
    }
}

/// Advancing the leader's cursor, after every follower wrapped, and
/// resting every follower on the lowest bit of its new legal set, yields
/// the successor tuple.
proof fn lemma_successor_leader(h: Seq<u64>, a: Seq<int>, b: Seq<int>)
    requires
        h.len() == 4,
        a.len() == 4,
        b.len() == 4,
        legal_tuple(h, a),
        is_next_bit(h[0], a[0], b[0]),
        forall|j: int| 1 <= j < 4 ==> is_lowest_bit(#[trigger] legal_choices(h[j], b[0]), b[j]),
        forall|j: int|
            1 <= j < 4 ==> (forall|m: int|
                a[j] < m < 64 ==> !bit_set(#[trigger] legal_choices(h[j], a[0]), m)),
    ensures
        is_successor_tuple(h, a, b),
{
    assert(legal_tuple(h, b));
    assert(0 <= 0 < 4 && a[0] < b[0] && (forall|i: int| 0 <= i < 0 ==> a[i] == b[i]));
    assert(tuple_lt(a, b));
    assert forall|u: Seq<int>| legal_tuple(h, u) && tuple_lt(a, u) implies tuple_le(b, u) by {
        let d = choose|d: int|
            #![trigger a[d], u[d]]
            0 <= d < 4 && a[d] < u[d] && (forall|i: int| 0 <= i < d ==> a[i] == u[i]);
        if d == 0 {
            assert(bit_set(h[0], u[0]));
            assert(u[0] >= b[0]);
            if u[0] == b[0] {
                assert forall|c: int| 0 <= c < 4 implies b[c] <= #[trigger] u[c] by {
                    if c >= 1 {
                        assert(bit_set(legal_choices(h[c], u[0]), u[c]));
                        assert(is_lowest_bit(legal_choices(h[c], b[0]), b[c]));
                    }
                }
                lemma_le_pointwise(b, u);
            } else {
                assert(0 <= 0 < 4 && b[0] < u[0] && (forall|i: int| 0 <= i < 0 ==> b[i] == u[i]));
                assert(tuple_lt(b, u));
            }
        } else {
            assert(u[0] == a[0]);
            assert(bit_set(legal_choices(h[d], a[0]), u[d]));
            assert(u[d] < 64);
            assert(false);
        }
    }
}

/// When every cursor, the leader's included, has wrapped, no legal tuple
/// lies above the current one.
proof fn lemma_exhausted(h: Seq<u64>, a: Seq<int>)
    requires
        h.len() == 4,
        a.len() == 4,
        forall|m: int| a[0] < m < 64 ==> !bit_set(h[0], m),
        forall|j: int|
            1 <= j < 4 ==> (forall|m: int|
                a[j] < m < 64 ==> !bit_set(#[trigger] legal_choices(h[j], a[0]), m)),
    ensures
        no_tuple_after(h, a),
{
    assert forall|u: Seq<int>| legal_tuple(h, u) implies !tuple_lt(a, u) by {
        if tuple_lt(a, u) {
            let d = choose|d: int|
                #![trigger a[d], u[d]]
                0 <= d < 4 && a[d] < u[d] && (forall|i: int| 0 <= i < d ==> a[i] == u[i]);
            if d == 0 {
                assert(bit_set(h[0], u[0]));
                assert(u[0] < 64);
                assert(false);
            } else {
                assert(u[0] == a[0]);
                assert(bit_set(legal_choices(h[d], a[0]), u[d]));
                assert(u[d] < 64);
                assert(false);
            }
        }
    }
}

/// The enumeration skips nothing: a legal tuple above one yield sits at
/// or above the yield after it.
pub proof fn lemma_enumeration_gapless(h: Seq<u64>, a: Seq<int>, b: Seq<int>, t: Seq<int>)
    requires
        is_successor_tuple(h, a, b),
        legal_tuple(h, t),
        tuple_lt(a, t),
    ensures
        tuple_le(b, t),
{
}

/// Every legal choice of every seat occurs in some legal play: whatever
/// card a follower may legally answer a lead with, a play exists in
/// which they do.
pub proof fn lemma_legal_choice_played(h: Seq<u64>, c0: int, j: int, c: int)
    requires
        h.len() == 4,
        forall|k: int| 0 <= k < 4 ==> #[trigger] h[k] != 0,
        bit_set(h[0], c0),
        1 <= j < 4,
        bit_set(legal_choices(h[j], c0), c),
    ensures
        exists|t: Seq<int>| legal_tuple(h, t) && t[0] == c0 && t[j] == c,
{
    let w1 = some_legal_choice(h, c0, 1);
    let w2 = some_legal_choice(h, c0, 2);
    let w3 = some_legal_choice(h, c0, 3);
    let t = seq![c0, w1, w2, w3].update(j, c);
    assert(t[0] == c0 && t[j] == c);
    assert forall|k: int| 1 <= k < 4 implies bit_set(#[trigger] legal_choices(h[k], t[0]), t[k]) by {
        if k != j {
            assert(t[k] == seq![c0, w1, w2, w3][k]);
        }
    }
    assert(legal_tuple(h, t) && t[0] == c0 && t[j] == c);
}

/// Picks one legal choice for a follower of a nonempty hand.
proof fn some_legal_choice(h: Seq<u64>, c0: int, k: int) -> (w: int)
    requires
        h.len() == 4,
        1 <= k < 4,
        h[k] != 0,
    ensures
        bit_set(legal_choices(h[k], c0), w),
{
    let lead = suit_mask_of_bit(c0);
    crate::card::lemma_and_comm(lead, h[k]);
    crate::card::lemma_and_everything(h[k]);
    assert(legal_choices(h[k], c0) != 0);
    let w = crate::card::lemma_nonzero_witness(CardSet(legal_choices(h[k], c0)));
    w
}

/// A trick holding any rocket is won by a rocket: the winning card is
/// the highest rocket played, whatever the lead suit.
pub proof fn lemma_trump_wins(cards: u64, lead: u64)
    requires
        cards & suit::ROCKETS != 0,
        forall|i: int| bit_set(lead, i) ==> 0 <= i < 40,
    ensures
        bit_set(suit::ROCKETS, trick_winner_bit(cards, lead)),
        bit_set(cards, trick_winner_bit(cards, lead)),
        is_max_bit(cards & suit::ROCKETS, trick_winner_bit(cards, lead)),
{
    let e = cards & (lead | suit::ROCKETS);
    let cr = cards & suit::ROCKETS;
    crate::card::lemma_top_bit(cr);
    let mr = crate::card::top_bit(cr);
    crate::card::lemma_bit_and(cards, suit::ROCKETS, mr);
    crate::card::lemma_suit_bits(mr);
    assert(36 <= mr < 40);
    crate::card::lemma_bit_or(lead, suit::ROCKETS, mr);
    crate::card::lemma_bit_and(cards, lead | suit::ROCKETS, mr);
    assert(bit_set(e, mr));
    crate::card::lemma_nonzero_of_bit(e, mr);
    crate::card::lemma_top_bit(e);
    let w = crate::card::top_bit(e);
    assert(w >= mr);
    crate::card::lemma_bit_and(cards, lead | suit::ROCKETS, w);
    crate::card::lemma_bit_or(lead, suit::ROCKETS, w);
    assert(bit_set(cards, w));
    assert(w < 40) by {
        crate::card::lemma_suit_bits(w);
    }
    crate::card::lemma_suit_bits(w);
    assert(bit_set(suit::ROCKETS, w));
    assert(bit_set(cr, w)) by {
        crate::card::lemma_bit_and(cards, suit::ROCKETS, w);
    }
    assert forall|j: int| w < j < 64 implies !bit_set(cr, j) by {
        crate::card::lemma_bit_and(cards, suit::ROCKETS, j);
        crate::card::lemma_suit_bits(j);
        crate::card::lemma_bit_or(lead, suit::ROCKETS, j);
        crate::card::lemma_bit_and(cards, lead | suit::ROCKETS, j);
    }
}

/// A generator whose cursors all rest on legal bits points at a legal
/// tuple.
pub proof fn lemma_ok_legal(g: PlayGenerator)
    requires
        g.counters_ok(),
    ensures
        legal_tuple(g.hands_seq(), g.cur()),
        forall|j: int|
            1 <= j < 4 ==> (#[trigger] g.counters@[j]).legal_mask() == legal_choices(
                g.hands_seq()[j],
                g.cur()[0],
            ),
        g.counters@[0].legal_mask() == g.hands_seq()[0],
{
    crate::card::lemma_and_everything(g.counters@[0].hand);
    assert(bit_set(g.hands_seq()[0], g.cur()[0]));
    assert forall|j: int| 1 <= j < 4 implies (#[trigger] g.counters@[j]).legal_mask()
        == legal_choices(g.hands_seq()[j], g.cur()[0]) by {
        assert(g.counters@[j].mask == follow_mask(
            g.counters@[j].hand,
            suit_mask_of_bit(g.cur()[0]),
        ));
    }
    assert forall|j: int| 1 <= j < 4 implies bit_set(
        #[trigger] legal_choices(g.hands_seq()[j], g.cur()[0]),
        g.cur()[j],
    ) by {
        assert(g.counters@[j].active());
    }
}

/// Lazily enumerates, in a fixed lexicographic order, every legal play
/// of one trick for a set of hands and a leader.
pub struct PlayGenerator {
    pub counters: [PositionCounter; NUM_PLAYERS],
    pub lead_suit: CardSet,
    pub first_time: bool,
    pub done: bool,
}

impl PlayGenerator {
    /// The hands the cursors walk, in rotated seating order.
    pub open spec fn hands_seq(self) -> Seq<u64> {
        Seq::new(4, |j: int| self.counters@[j].hand)
    }

    /// The current cursor positions, in rotated seating order.
    pub open spec fn cur(self) -> Seq<int> {
        Seq::new(4, |j: int| self.counters@[j].position as int)
    }

    /// Every cursor rests on a legal bit, the masks match the current
    /// lead card's suit, and the stored lead suit is that suit.
    pub open spec fn counters_ok(self) -> bool {
        &&& forall|j: int| 0 <= j < 4 ==> (#[trigger] self.counters@[j]).active()
        &&& self.counters@[0].mask == CardSet::EVERYTHING
        &&& forall|j: int|
            1 <= j < 4 ==> (#[trigger] self.counters@[j]).mask == follow_mask(
                self.counters@[j].hand,
                suit_mask_of_bit(self.cur()[0]),
            )
        &&& self.lead_suit.0 == suit_mask_of_bit(self.cur()[0])
    }

    /// The generator's invariant.
    pub open spec fn wf(self) -> bool {
        &&& forall|j: int| 0 <= j < 4 ==> (#[trigger] self.hands_seq()[j]) & !suit::UNIVERSE == 0
        &&& !self.done ==> self.counters_ok()
        &&& (!self.done && self.first_time) ==> is_min_tuple(self.hands_seq(), self.cur())
    }

    /// Builds the enumerator; it starts on the least legal play, or is
    /// exhausted at once when some hand is empty.
    pub fn new(hands: &Hands, lead_player: PlayerIndex) -> (r: PlayGenerator)
        requires
            lead_player < 4,
            forall|j: int| 0 <= j < 4 ==> (#[trigger] hands@[j]).0 & !suit::UNIVERSE == 0,
        ensures
            r.wf(),
            r.hands_seq() == rotated_hands(hands@, lead_player as int),
            r.done <==> (exists|j: int|
                0 <= j < 4 && #[trigger] rotated_hands(hands@, lead_player as int)[j] == 0),
            !r.done ==> r.first_time,
    {
        let lp = lead_player as usize;
        let h0 = hands[lp];
        let h1 = hands[(lp + 1) % 4];
        let h2 = hands[(lp + 2) % 4];
        let h3 = hands[(lp + 3) % 4];
        let c0 = PositionCounter::new(h0);
        let c1 = PositionCounter::new(h1);
        let c2 = PositionCounter::new(h2);
        let c3 = PositionCounter::new(h3);
        let done = h0.0 == 0 || h1.0 == 0 || h2.0 == 0 || h3.0 == 0;
        let mut obj = PlayGenerator {
            counters: [c0, c1, c2, c3],
            lead_suit: CardSet(0),
            first_time: true,
            done,
        };
        proof {
            let rot = rotated_hands(hands@, lead_player as int);
            assert(obj.hands_seq() =~= rot);
            assert(rot[0] == h0.0 && rot[1] == h1.0 && rot[2] == h2.0 && rot[3] == h3.0);
            if done {
                if h0.0 == 0 {
                    assert(rot[0] == 0);
                } else if h1.0 == 0 {
                    assert(rot[1] == 0);
                } else if h2.0 == 0 {
                    assert(rot[2] == 0);
                } else {
                    assert(rot[3] == 0);
                }
            }
            if exists|j: int| 0 <= j < 4 && #[trigger] rot[j] == 0 {
                let j = choose|j: int| 0 <= j < 4 && #[trigger] rot[j] == 0;
                assert(j == 0 || j == 1 || j == 2 || j == 3);
                assert(done);
            }
            if !done {
                crate::card::lemma_and_everything(h0.0);
            }
        }
        if !obj.done {
            obj.set_lead_suit();
            proof {
                crate::card::lemma_and_everything(obj.counters@[0].hand);
                lemma_min_tuple(obj.hands_seq(), obj.cur());
            }
        }
        obj
    }

    /// The union of the cards under the cursors.
    fn build_cards(&self) -> (r: CardSet)
        requires
            forall|j: int| 0 <= j < 4 ==> (#[trigger] self.counters@[j]).position < 64,
        ensures
            r@ == tuple_bits(self.cur()),
            r.0 == tuple_mask(self.cur()),
    {
        let c0 = self.counters[0];
        let c1 = self.counters[1];
        let c2 = self.counters[2];
        let c3 = self.counters[3];
        let r = c0.get_card().add(c1.get_card()).add(c2.get_card()).add(c3.get_card());
        proof {
            assert(r@ =~= tuple_bits(self.cur()));
        }
        r
    }

    /// Recomputes the lead suit from the leader's current card and rests
    /// every follower on the lowest bit of its new legal set.
    fn set_lead_suit(&mut self)
        requires
            forall|j: int| 0 <= j < 4 ==> (#[trigger] old(self).counters@[j]).hand != 0,
            forall|j: int|
                0 <= j < 4 ==> (#[trigger] old(self).counters@[j]).hand & !suit::UNIVERSE == 0,
            old(self).counters@[0].active(),
            old(self).counters@[0].mask == CardSet::EVERYTHING,
        ensures
            final(self).counters@[0] == old(self).counters@[0],
            forall|j: int|
                0 <= j < 4 ==> (#[trigger] final(self).counters@[j]).hand == old(
                    self,
                ).counters@[j].hand,
            final(self).done == old(self).done,
            final(self).first_time == old(self).first_time,
            final(self).counters_ok(),
            forall|j: int|
                1 <= j < 4 ==> is_lowest_bit(
                    legal_choices(#[trigger] final(self).counters@[j].hand, final(self).cur()[0]),
                    final(self).cur()[j],
                ),
    {
        proof {
            let c0 = self.counters@[0];
            crate::card::lemma_and_everything(c0.hand);
            assert(bit_set(c0.hand, c0.position as int));
            crate::card::lemma_universe_bit(c0.hand, c0.position as int);
        }
        let c0 = self.counters[0];
        let lead_card = c0.get_card();
        self.lead_suit = lead_card.get_suit();
        proof {
            crate::card::lemma_suit_of_single(c0.position as int);
        }
        let mut c = self.counters[1];
        let must = self.lead_suit.overlaps_with(CardSet::from_raw(c.get_hand()));
        proof {
            crate::card::lemma_overlap_raw(self.lead_suit, CardSet(c.hand));
            crate::card::lemma_and_comm(self.lead_suit.0, c.hand);
            crate::card::lemma_and_everything(c.hand);
        }
        let mask = if must {
            self.lead_suit
        } else {
            CardSet(CardSet::EVERYTHING)
        };
        c.reset_with_mask(mask);
        self.counters[1] = c;

        let mut c = self.counters[2];
        let must = self.lead_suit.overlaps_with(CardSet::from_raw(c.get_hand()));
        proof {
            crate::card::lemma_overlap_raw(self.lead_suit, CardSet(c.hand));
            crate::card::lemma_and_comm(self.lead_suit.0, c.hand);
            crate::card::lemma_and_everything(c.hand);
        }
        let mask = if must {
            self.lead_suit
        } else {
            CardSet(CardSet::EVERYTHING)
        };
        c.reset_with_mask(mask);
        self.counters[2] = c;

        let mut c = self.counters[3];
        let must = self.lead_suit.overlaps_with(CardSet::from_raw(c.get_hand()));
        proof {
            crate::card::lemma_overlap_raw(self.lead_suit, CardSet(c.hand));
            crate::card::lemma_and_comm(self.lead_suit.0, c.hand);
            crate::card::lemma_and_everything(c.hand);
        }
        let mask = if must {
            self.lead_suit
        } else {
            CardSet(CardSet::EVERYTHING)
        };
        c.reset_with_mask(mask);
        self.counters[3] = c;
    }

    /// The play under the current cursor positions.
    fn get_play(&self) -> (r: Play)
        requires
            forall|j: int| 0 <= j < 4 ==> (#[trigger] self.counters@[j]).position < 64,
        ensures
            r.cards@ == tuple_bits(self.cur()),
            r.cards.0 == tuple_mask(self.cur()),
            r.lead_suit == self.lead_suit,
    {
        Play { cards: self.build_cards(), lead_suit: self.lead_suit }
    }

    /// Yields the next legal play: first the least legal tuple, then the
    /// lexicographic successor of the previous one, and `None` once no
    /// legal tuple is left.
    pub fn next(&mut self) -> (r: Option<Play>)
        requires
            old(self).wf(),
        ensures
            final(self).wf(),
            final(self).hands_seq() == old(self).hands_seq(),
            match r {
                Some(p) => {
                    &&& !old(self).done
                    &&& !final(self).done
                    &&& !final(self).first_time
                    &&& p.lead_suit.0 == suit_mask_of_bit(final(self).cur()[0])
                    &&& p.cards@ == tuple_bits(final(self).cur())
                    &&& p.cards.0 == tuple_mask(final(self).cur())
                    &&& legal_tuple(final(self).hands_seq(), final(self).cur())
                    &&& old(self).first_time ==> final(self).cur() == old(self).cur()
                        && is_min_tuple(old(self).hands_seq(), final(self).cur())
                    &&& !old(self).first_time ==> is_successor_tuple(
                        old(self).hands_seq(),
                        old(self).cur(),
                        final(self).cur(),
                    )
                },
                None => {
                    &&& final(self).done
                    &&& old(self).done || (!old(self).first_time && no_tuple_after(
                        old(self).hands_seq(),
                        old(self).cur(),
                    ))
                },
            },
    {
        let ghost h = self.hands_seq();
        let ghost a = self.cur();
        if self.done {
            return None;
        }
        proof {
            lemma_ok_legal(*self);
        }
        if self.first_time {
            self.first_time = false;
            return Some(self.get_play());
        }
        let ghost pre3 = self.counters@[3];
        let ghost pre2 = self.counters@[2];
        let ghost pre1 = self.counters@[1];
        let ghost pre0 = self.counters@[0];
        let mut c3 = self.counters[3];
        let ov3 = c3.increment();
        self.counters[3] = c3;
        if !ov3 {
            proof {
                let b = self.cur();
                assert(b =~= a.update(3, c3.position as int));
                lemma_successor_inner(h, a, b, 3);
                assert(self.hands_seq() =~= h);
                assert(self.counters_ok());
            }
            return Some(self.get_play());
        }
        let mut c2 = self.counters[2];
        let ov2 = c2.increment();
        self.counters[2] = c2;
        if !ov2 {
            proof {
                let b = self.cur();
                assert(b =~= a.update(2, c2.position as int).update(3, c3.position as int));
                lemma_successor_inner(h, a, b, 2);
                assert(self.hands_seq() =~= h);
                assert(self.counters_ok());
            }
            return Some(self.get_play());
        }
        let mut c1 = self.counters[1];
        let ov1 = c1.increment();
        self.counters[1] = c1;
        if !ov1 {
            proof {
                let b = self.cur();
                assert(b =~= a.update(1, c1.position as int).update(
                    2,
                    c2.position as int,
                ).update(3, c3.position as int));
                lemma_successor_inner(h, a, b, 1);
                assert(self.hands_seq() =~= h);
                assert(self.counters_ok());
            }
            return Some(self.get_play());
        }
        let mut c0 = self.counters[0];
        let ov0 = c0.increment();
        self.counters[0] = c0;
        if ov0 {
            self.done = true;
            proof {
                crate::card::lemma_and_everything(h[0]);
                lemma_exhausted(h, a);
                assert(self.hands_seq() =~= h);
            }
            return None;
        }
        proof {
            crate::card::lemma_and_everything(h[0]);
            assert(self.hands_seq() =~= h);
            assert forall|j: int| 0 <= j < 4 implies (#[trigger] self.counters@[j]).hand != 0 by {
                lemma_legal_needs_hands(h, a);
            }
        }
        self.set_lead_suit();
        proof {
            let b = self.cur();
            assert(self.hands_seq() =~= h);
            lemma_successor_leader(h, a, b);
        }
        Some(self.get_play())
    }
}

} // verus!
