use vstd::prelude::*;

use crate::card::{
    bit_set, count_bits_upto, lemma_and_not_disjoint, lemma_and_not_region, lemma_bit_and,
    lemma_count_le, lemma_count_lt, lemma_nonzero_of_bit, lemma_single_overlap, lemma_suit_bits,
    lemma_top_bit, lemma_universe_bit, CardSet,
};
use crate::play::{
    follow_mask, is_min_tuple, is_successor_tuple, legal_choices, legal_tuple, lemma_tuple_asym,
    lemma_tuple_total, no_tuple_after, rotated_hands, trick_winner_bit, tuple_bits, tuple_le,
    tuple_lt, tuple_mask, Hands, Play, PlayGenerator,
};
use crate::player::PlayerIndex;
use crate::suit;
use crate::tasks::{obj_check_spec, obj_complete, Task, TasksObjective};

verus! {

broadcast use vstd::array::group_array_axioms;

/// The raw bitmasks of a sequence of hands.
pub open spec fn hands_raw(hands: Seq<CardSet>) -> Seq<u64> {
    Seq::new(4, |j: int| hands[j].0)
}

/// The hands rotated so the given leader sits first.
pub open spec fn rotate_raw(h: Seq<u64>, leader: int) -> Seq<u64> {
    Seq::new(4, |j: int| h[(leader + j) % 4])
}

/// The seat of the first hand holding the card at bit `c`, or 4 if none
/// does; with pairwise disjoint hands, the only such seat.
pub open spec fn player_of_card(h: Seq<u64>, c: int) -> int {
    if bit_set(h[0], c) {
        0
    } else if bit_set(h[1], c) {
        1
    } else if bit_set(h[2], c) {
        2
    } else if bit_set(h[3], c) {
        3
    } else {
        4
    }
}

/// Every hand with the played cards taken out.
pub open spec fn remove_play(h: Seq<u64>, m: u64) -> Seq<u64> {
    Seq::new(4, |j: int| h[j] & !m)
}

/// The number of cards left over all hands.
pub open spec fn total_cards(h: Seq<u64>) -> nat {
    count_bits_upto(h[0], 64) + count_bits_upto(h[1], 64) + count_bits_upto(h[2], 64)
        + count_bits_upto(h[3], 64)
}

/// Whether playing the trick `cards_mask` under lead suit `lead` keeps
/// the objective alive and leads to a win: the transition must go
/// through, and then the objective is either complete or the shrunken
/// position is solvable with the trick winner leading.
pub open spec fn play_wins_raw(
    h: Seq<u64>,
    abs: Seq<Task>,
    rel: Seq<Task>,
    any: Seq<Task>,
    last: Option<Task>,
    cards_mask: u64,
    lead: u64,
) -> bool
    decreases total_cards(h), 0int,
{
    let winner = player_of_card(h, trick_winner_bit(cards_mask, lead));
    match obj_check_spec(abs, rel, any, last, CardSet(cards_mask)@, winner as PlayerIndex) {
        Some(tiers) => obj_complete(tiers.0, tiers.1, tiers.2, tiers.3) || {
            let rem = remove_play(h, cards_mask);
            &&& total_cards(rem) < total_cards(h)
            &&& solvable_in(rem, tiers.0, tiers.1, tiers.2, tiers.3, winner)
        },
        None => false,
    }
}

/// There is a legal play of the next trick that wins.
pub open spec fn solvable_in(
    h: Seq<u64>,
    abs: Seq<Task>,
    rel: Seq<Task>,
    any: Seq<Task>,
    last: Option<Task>,
    leader: int,
) -> bool
    decreases total_cards(h), 1int,
{
    exists|t: Seq<int>|
        #[trigger] legal_tuple(rotate_raw(h, leader), t) && play_wins_raw(
            h,
            abs,
            rel,
            any,
            last,
            tuple_mask(t),
            crate::card::suit_mask_of_bit(t[0]),
        )
}

/// A legal winning tuple shows the position solvable.
proof fn lemma_solvable_witness(
    h: Seq<u64>,
    abs: Seq<Task>,
    rel: Seq<Task>,
    any: Seq<Task>,
    last: Option<Task>,
    leader: int,
    t: Seq<int>,
)
    requires
        legal_tuple(rotate_raw(h, leader), t),
        play_wins_raw(h, abs, rel, any, last, tuple_mask(t), crate::card::suit_mask_of_bit(t[0])),
    ensures
        solvable_in(h, abs, rel, any, last, leader),
{
}

/// One snapshot of the search: hands, goal state, and the player about
/// to lead.
#[derive(Debug)]
pub struct GameState {
    pub hands: Hands,
    pub tasks: TasksObjective,
    pub curr_leader: PlayerIndex,
}

impl GameState {
    /// The hands lie inside the card universe, no card sits in two
    /// hands, the leader is a real seat, and the objective is sound.
    pub open spec fn wf(self) -> bool {
        &&& self.curr_leader < 4
        &&& forall|j: int| 0 <= j < 4 ==> (#[trigger] self.hands@[j]).0 & !suit::UNIVERSE == 0
        &&& forall|i: int, j: int|
            0 <= i < j < 4 ==> (#[trigger] self.hands@[i]).0 & (#[trigger] self.hands@[j]).0 == 0
        &&& self.tasks.wf()
    }

    /// The search from this snapshot can reach a fully satisfied
    /// objective.
    pub open spec fn solvable(self) -> bool {
        solvable_in(
            hands_raw(self.hands@),
            self.tasks.absolute_tasks.tasks@,
            self.tasks.relative_tasks.tasks@,
            self.tasks.anytime_tasks.tasks@,
            self.tasks.last_task,
            self.curr_leader as int,
        )
    }

    pub fn new(hands: Hands, tasks: TasksObjective, curr_leader: PlayerIndex) -> (r: GameState)
        ensures
            r.hands == hands,
            r.tasks == tasks,
            r.curr_leader == curr_leader,
    {
        GameState { hands, tasks, curr_leader }
    }
}

/// A numeric reading of a tuple, used only to bound the enumeration.
spec fn tuple_num(t: Seq<int>) -> int {
    t[0] * 262144 + t[1] * 4096 + t[2] * 64 + t[3]
}

proof fn lemma_tuple_num_lt(a: Seq<int>, b: Seq<int>)
    requires
        a.len() == 4,
        b.len() == 4,
        forall|j: int| 0 <= j < 4 ==> 0 <= #[trigger] a[j] < 64,
        forall|j: int| 0 <= j < 4 ==> 0 <= #[trigger] b[j] < 64,
        tuple_lt(a, b),
    ensures
        tuple_num(a) < tuple_num(b),
{
    let d = choose|d: int|
        #![trigger a[d], b[d]]
        0 <= d < 4 && a[d] < b[d] && (forall|i: int| 0 <= i < d ==> a[i] == b[i]);
    if d == 0 {
        assert(b[0] >= a[0] + 1);
    } else if d == 1 {
        assert(b[1] >= a[1] + 1);
    } else if d == 2 {
        assert(b[2] >= a[2] + 1);
    } else {
        assert(b[3] >= a[3] + 1);
    }
}

/// A legal tuple keeps every coordinate inside the word.
proof fn lemma_tuple_bounds(h: Seq<u64>, t: Seq<int>)
    requires
        legal_tuple(h, t),
    ensures
        forall|j: int| 0 <= j < 4 ==> 0 <= #[trigger] t[j] < 64,
{
    assert forall|j: int| 0 <= j < 4 implies 0 <= #[trigger] t[j] < 64 by {
        if j == 0 {
            assert(bit_set(h[0], t[0]));
        } else {
            assert(bit_set(legal_choices(h[j], t[0]), t[j]));
        }
    }
}

/// Decides whether the position can be played out to satisfy every
/// task, searching depth first over every legal play of the next trick.
pub fn solve(state: &GameState) -> (r: bool)
    requires
        state.wf(),
    ensures
        r == state.solvable(),
    decreases total_cards(hands_raw(state.hands@)), 1int,
{
    let ghost hr = hands_raw(state.hands@);
    let ghost rh = rotate_raw(hr, state.curr_leader as int);
    let ghost abs = state.tasks.absolute_tasks.tasks@;
    let ghost rel = state.tasks.relative_tasks.tasks@;
    let ghost any = state.tasks.anytime_tasks.tasks@;
    let ghost last = state.tasks.last_task;
    let mut generator = PlayGenerator::new(&state.hands, state.curr_leader);
    proof {
        assert(generator.hands_seq() =~= rh);
        if generator.done {
            assert forall|t: Seq<int>| !legal_tuple(rh, t) by {
                if legal_tuple(rh, t) {
                    crate::play::lemma_legal_needs_hands(rh, t);
                    let j = choose|j: int|
                        0 <= j < 4 && #[trigger] rotated_hands(
                            state.hands@,
                            state.curr_leader as int,
                        )[j] == 0;
                    assert(rh[j] == 0);
                }
            }
        }
    }
    loop
        invariant
            state.wf(),
            generator.wf(),
            generator.hands_seq() == rh,
            rh == rotate_raw(hands_raw(state.hands@), state.curr_leader as int),
            hr == hands_raw(state.hands@),
            abs == state.tasks.absolute_tasks.tasks@,
            rel == state.tasks.relative_tasks.tasks@,
            any == state.tasks.anytime_tasks.tasks@,
            last == state.tasks.last_task,
            generator.done ==> (forall|t: Seq<int>| !legal_tuple(rh, t)),
            !generator.done && !generator.first_time ==> (forall|t: Seq<int>|
                #[trigger] legal_tuple(rh, t) && tuple_le(t, generator.cur()) ==> !play_wins_raw(
                    hr,
                    abs,
                    rel,
                    any,
                    last,
                    tuple_mask(t),
                    crate::card::suit_mask_of_bit(t[0]),
                )),
        decreases (if generator.done {
            0int
        } else {
            16777216int - tuple_num(generator.cur()) + (if generator.first_time {
                1int
            } else {
                0int
            })
        }),
    {
        let ghost was_done = generator.done;
        let ghost was_first = generator.first_time;
        let ghost prev = generator.cur();
        proof {
            if !generator.done {
                crate::play::lemma_ok_legal(generator);
            }
        }
        let next = generator.next();
        match next {
            None => {
                proof {
                    if !was_done {
                        assert forall|t: Seq<int>| #[trigger] legal_tuple(rh, t) implies !play_wins_raw(
                            hr,
                            abs,
                            rel,
                            any,
                            last,
                            tuple_mask(t),
                            crate::card::suit_mask_of_bit(t[0]),
                        ) by {
                            lemma_tuple_bounds(rh, t);
                            lemma_tuple_bounds(rh, prev);
                            lemma_tuple_total(t, prev);
                            if tuple_lt(prev, t) {
                                assert(no_tuple_after(rh, prev));
                            }
                        }
                    }
                    assert(!state.solvable());
                }
                return false;
            },
            Some(play) => {
                let ghost cur = generator.cur();
                proof {
                    lemma_tuple_bounds(rh, cur);
                    lemma_solve_play_pre(hr, rh, state.curr_leader as int, cur);
                }
                let won = solve_play(state, &play);
                if won {
                    proof {
                        assert(play.cards.0 == tuple_mask(cur));
                        assert(play.lead_suit.0 == crate::card::suit_mask_of_bit(cur[0]));
                        lemma_solvable_witness(
                            hr,
                            abs,
                            rel,
                            any,
                            last,
                            state.curr_leader as int,
                            cur,
                        );
                        assert(state.solvable());
                    }
                    return true;
                }
                proof {
                    assert forall|t: Seq<int>|
                        #[trigger] legal_tuple(rh, t) && tuple_le(t, cur) implies !play_wins_raw(
                        hr,
                        abs,
                        rel,
                        any,
                        last,
                        tuple_mask(t),
                        crate::card::suit_mask_of_bit(t[0]),
                    ) by {
                        if t != cur {
                            assert(tuple_lt(t, cur));
                            lemma_tuple_bounds(rh, t);
                            if was_first {
                                assert(is_min_tuple(rh, cur));
                                assert(tuple_le(cur, t));
                                if tuple_lt(cur, t) {
                                    lemma_tuple_asym(cur, t);
                                }
                            } else {
                                lemma_tuple_bounds(rh, prev);
                                lemma_tuple_total(prev, t);
                                if tuple_lt(prev, t) {
                                    assert(is_successor_tuple(rh, prev, cur));
                                    assert(tuple_le(cur, t));
                                    if tuple_lt(cur, t) {
                                        lemma_tuple_asym(cur, t);
                                    }
                                    assert(t == cur);
                                }
                            }
                        }
                    }
                    if !was_first {
                        lemma_tuple_bounds(rh, prev);
                        lemma_tuple_bounds(rh, cur);
                        lemma_tuple_num_lt(prev, cur);
                    }
                }
            },
        }
    }
}

/// The facts a play drawn from the generator carries: its winner card is
/// eligible and sits in one of the hands.
proof fn lemma_solve_play_pre(hr: Seq<u64>, rh: Seq<u64>, leader: int, t: Seq<int>)
    requires
        0 <= leader < 4,
        rh == rotate_raw(hr, leader),
        legal_tuple(rh, t),
        forall|j: int| 0 <= j < 4 ==> (#[trigger] rh[j]) & !suit::UNIVERSE == 0,
    ensures
        tuple_mask(t) & (crate::card::suit_mask_of_bit(t[0]) | suit::ROCKETS) != 0,
        exists|j: int|
            0 <= j < 4 && bit_set(
                #[trigger] hr[j],
                trick_winner_bit(tuple_mask(t), crate::card::suit_mask_of_bit(t[0])),
            ),
        forall|i: int| bit_set(tuple_mask(t), i) <==> tuple_bits(t).contains(i),
{
    lemma_tuple_bounds(rh, t);
    let m = tuple_mask(t);
    let lead = crate::card::suit_mask_of_bit(t[0]);
    lemma_tuple_mask_bits(t);
    // the leader's card is in the lead suit
    assert(bit_set(rh[0], t[0]));
    lemma_universe_bit(rh[0], t[0]);
    lemma_suit_bits(t[0]);
    assert(bit_set(lead, t[0]));
    // hence the eligible mask is nonempty
    crate::card::lemma_bit_or(lead, suit::ROCKETS, t[0]);
    lemma_bit_and(m, lead | suit::ROCKETS, t[0]);
    assert(bit_set(m & (lead | suit::ROCKETS), t[0]));
    lemma_nonzero_of_bit(m & (lead | suit::ROCKETS), t[0]);
    // the winner card is one of the played cards, hence in some hand
    let w = trick_winner_bit(m, lead);
    lemma_top_bit(m & (lead | suit::ROCKETS));
    assert(bit_set(m & (lead | suit::ROCKETS), w));
    lemma_bit_and(m, lead | suit::ROCKETS, w);
    assert(bit_set(m, w));
    assert(tuple_bits(t).contains(w));
    assert forall|j: int| 0 <= j < 4 implies bit_set(#[trigger] rh[j], t[j]) by {
        if j >= 1 {
            assert(bit_set(legal_choices(rh[j], t[0]), t[j]));
            lemma_bit_and(rh[j], follow_mask(rh[j], lead), t[j]);
        }
    }
    let jj: int = if t[0] == w {
        0
    } else if t[1] == w {
        1
    } else if t[2] == w {
        2
    } else {
        3
    };
    assert(t[jj] == w);
    let s = (leader + jj) % 4;
    assert(rh[jj] == hr[s]);
    assert(0 <= s < 4);
    assert(bit_set(hr[s], w));
}

/// The bits of a tuple's mask are exactly its four positions.
proof fn lemma_tuple_mask_bits(t: Seq<int>)
    requires
        t.len() == 4,
        forall|j: int| 0 <= j < 4 ==> 0 <= #[trigger] t[j] < 64,
    ensures
        forall|i: int| bit_set(tuple_mask(t), i) <==> tuple_bits(t).contains(i),
        (CardSet(tuple_mask(t)))@ == tuple_bits(t),
{
    let m01 = (1u64 << (t[0] as u64)) | (1u64 << (t[1] as u64));
    let m012 = m01 | (1u64 << (t[2] as u64));
    assert forall|i: int| bit_set(tuple_mask(t), i) <==> tuple_bits(t).contains(i) by {
        if 0 <= i < 64 {
            crate::card::lemma_bit_or(m012, 1u64 << (t[3] as u64), i);
            crate::card::lemma_bit_or(m01, 1u64 << (t[2] as u64), i);
            crate::card::lemma_bit_or(1u64 << (t[0] as u64), 1u64 << (t[1] as u64), i);
            crate::card::lemma_bit_single(t[0] as u64, i);
            crate::card::lemma_bit_single(t[1] as u64, i);
            crate::card::lemma_bit_single(t[2] as u64, i);
            crate::card::lemma_bit_single(t[3] as u64, i);
        } else {
            assert(!bit_set(tuple_mask(t), i));
            assert(!tuple_bits(t).contains(i));
        }
    }
    assert((CardSet(tuple_mask(t)))@ =~= tuple_bits(t));
}

/// Tries one play: finds the trick winner, advances the objective, and
/// either stops on completion or searches on from the shrunken hands.
fn solve_play(state: &GameState, play: &Play) -> (r: bool)
    requires
        state.wf(),
        play.cards.0 & (play.lead_suit.0 | suit::ROCKETS) != 0,
        exists|j: int|
            0 <= j < 4 && bit_set(
                #[trigger] hands_raw(state.hands@)[j],
                trick_winner_bit(play.cards.0, play.lead_suit.0),
            ),
    ensures
        r == play_wins_raw(
            hands_raw(state.hands@),
            state.tasks.absolute_tasks.tasks@,
            state.tasks.relative_tasks.tasks@,
            state.tasks.anytime_tasks.tasks@,
            state.tasks.last_task,
            play.cards.0,
            play.lead_suit.0,
        ),
    decreases total_cards(hands_raw(state.hands@)), 0int,
{
    let ghost hr = hands_raw(state.hands@);
    let ghost w = trick_winner_bit(play.cards.0, play.lead_suit.0);
    let winning_card = play.get_trick_winner();
    proof {
        lemma_top_bit(play.cards.0 & (play.lead_suit.0 | suit::ROCKETS));
        assert(bit_set(play.cards.0 & (play.lead_suit.0 | suit::ROCKETS), w));
        assert forall|j: int| 0 <= j < 4 implies ((#[trigger] state.hands@[j]).0 & winning_card.0
            != 0 <==> bit_set(hr[j], w)) by {
            lemma_single_overlap(state.hands@[j].0, w as u64);
        }
    }
    let winner = match find_player_with_card(&state.hands, winning_card) {
        Some(winner) => winner,
        None => {
            proof {
                let j = choose|j: int| 0 <= j < 4 && bit_set(#[trigger] hr[j], w);
                assert(state.hands@[j].0 & winning_card.0 != 0);
            }
            return false;
        },
    };
    proof {
        assert(winner as int == player_of_card(hr, w));
        assert((CardSet(play.cards.0))@ == play.cards@) by {
            assert(CardSet(play.cards.0) == play.cards);
        }
    }

    let new_tasks = state.tasks.check(play.cards(), winner);

    match new_tasks {
        None => false,
        Some(new_tasks) => {
            if new_tasks.is_complete() {
                true
            } else {
                let remaining_hands = get_remaining_hands(&state.hands, play);
                let new_state = GameState::new(remaining_hands, new_tasks, winner);
                proof {
                    lemma_bit_and(play.cards.0, play.lead_suit.0 | suit::ROCKETS, w);
                    assert(bit_set(play.cards.0, w));
                    let jx = choose|j: int| 0 <= j < 4 && bit_set(#[trigger] hr[j], w);
                    assert(bit_set(state.hands@[jx].0, w));
                    lemma_transition(
                        state.hands@,
                        remaining_hands@,
                        play.cards.0,
                        w,
                        winner as int,
                    );
                }
                solve(&new_state)
            }
        },
    }
}

/// Removing a trick's cards keeps the state invariant and strictly
/// shrinks the total card count.
proof fn lemma_transition(hands: Seq<CardSet>, rem: Seq<CardSet>, m: u64, w: int, winner: int)
    requires
        hands.len() == 4,
        rem.len() == 4,
        forall|j: int| 0 <= j < 4 ==> (#[trigger] rem[j]).0 == hands[j].0 & !m,
        forall|j: int| 0 <= j < 4 ==> (#[trigger] hands[j]).0 & !suit::UNIVERSE == 0,
        forall|i: int, j: int|
            0 <= i < j < 4 ==> (#[trigger] hands[i]).0 & (#[trigger] hands[j]).0 == 0,
        0 <= w < 64,
        bit_set(m, w),
        exists|j: int| 0 <= j < 4 && bit_set((#[trigger] hands[j]).0, w),
    ensures
        forall|j: int| 0 <= j < 4 ==> (#[trigger] rem[j]).0 & !suit::UNIVERSE == 0,
        forall|i: int, j: int|
            0 <= i < j < 4 ==> (#[trigger] rem[i]).0 & (#[trigger] rem[j]).0 == 0,
        hands_raw(rem) == remove_play(hands_raw(hands), m),
        total_cards(hands_raw(rem)) < total_cards(hands_raw(hands)),
{
    assert forall|j: int| 0 <= j < 4 implies (#[trigger] rem[j]).0 & !suit::UNIVERSE == 0 by {
        lemma_and_not_region(hands[j].0, !suit::UNIVERSE, m);
    }
    assert forall|i: int, j: int| 0 <= i < j < 4 implies (#[trigger] rem[i]).0 & (
    #[trigger] rem[j]).0 == 0 by {
        lemma_and_not_disjoint(hands[i].0, hands[j].0, m);
    }
    assert(hands_raw(rem) =~= remove_play(hands_raw(hands), m));
    let jw = choose|j: int| 0 <= j < 4 && bit_set((#[trigger] hands[j]).0, w);
    assert forall|j: int| 0 <= j < 4 implies count_bits_upto((#[trigger] rem[j]).0, 64)
        <= count_bits_upto(hands[j].0, 64) by {
        lemma_count_pointwise(hands[j].0, m);
    }
    lemma_count_pointwise(hands[jw].0, m);
    assert(!bit_set(hands[jw].0 & !m, w)) by {
        lemma_bit_and(hands[jw].0, !m, w);
        crate::card::lemma_bit_not(m, w);
    }
    lemma_count_lt(hands[jw].0, hands[jw].0 & !m, 64, w);
    assert(count_bits_upto(rem[jw].0, 64) < count_bits_upto(hands[jw].0, 64));
}

/// Removal only clears bits.
proof fn lemma_count_pointwise(x: u64, m: u64)
    ensures
        forall|i: int| 0 <= i < 64 && bit_set(x & !m, i) ==> bit_set(x, i),
        count_bits_upto(x & !m, 64) <= count_bits_upto(x, 64),
{
    assert forall|i: int| 0 <= i < 64 && bit_set(x & !m, i) implies bit_set(x, i) by {
        lemma_bit_and(x, !m, i);
    }
    lemma_count_le(x, x & !m, 64);
}

/// The seat of the first hand that overlaps the given cards.
fn find_player_with_card(hands: &Hands, card: CardSet) -> (r: Option<PlayerIndex>)
    ensures
        match r {
            Some(i) => i < 4 && hands@[i as int].0 & card.0 != 0 && (forall|j: int|
                0 <= j < i as int ==> (#[trigger] hands@[j]).0 & card.0 == 0),
            None => forall|j: int| 0 <= j < 4 ==> (#[trigger] hands@[j]).0 & card.0 == 0,
        },
{
    let mut i: usize = 0;
    while i < 4
        invariant
            i <= 4,
            forall|j: int| 0 <= j < i as int ==> (#[trigger] hands@[j]).0 & card.0 == 0,
        decreases 4 - i,
    {
        if hands[i].get_raw() & card.get_raw() != 0 {
            return Some(i as PlayerIndex);
        }
        i = i + 1;
    }
    None
}

/// Every hand with the trick's cards taken out.
fn get_remaining_hands(hands: &Hands, play: &Play) -> (r: Hands)
    ensures
        r@.len() == 4,
        forall|j: int| 0 <= j < 4 ==> (#[trigger] r@[j]).0 == hands@[j].0 & !play.cards.0,
{
    [
        CardSet(hands[0].0 & !play.cards.0),
        CardSet(hands[1].0 & !play.cards.0),
        CardSet(hands[2].0 & !play.cards.0),
        CardSet(hands[3].0 & !play.cards.0),
    ]
}

} // verus!
