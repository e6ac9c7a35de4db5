use vstd::prelude::*;

use crate::card::{card_bit, cards_bits, Card, CardSet};
use crate::solver::GameState;
use crate::tasks::{Task, TasksObjective, TASK_LIST_LENGTH};

use vstd::slice::slice_index_get;
use vstd::string::StrSliceExecFns;
use vstd::string::StringExecFns;

verus! {

/// The suit letter of a card's identifier.
pub open spec fn suit_char_of(c: Card) -> char {
    let i = card_bit(c);
    if i < 9 {
        'B'
    } else if i < 18 {
        'Y'
    } else if i < 27 {
        'M'
    } else if i < 36 {
        'G'
    } else {
        'R'
    }
}

/// The rank of a card, counted from one inside its suit.
pub open spec fn rank_of(c: Card) -> int {
    let i = card_bit(c);
    if i < 36 {
        i % 9 + 1
    } else {
        i - 36 + 1
    }
}

/// The rank digit of a card's identifier.
pub open spec fn rank_char_of(c: Card) -> char {
    let r = rank_of(c);
    if r == 1 {
        '1'
    } else if r == 2 {
        '2'
    } else if r == 3 {
        '3'
    } else if r == 4 {
        '4'
    } else if r == 5 {
        '5'
    } else if r == 6 {
        '6'
    } else if r == 7 {
        '7'
    } else if r == 8 {
        '8'
    } else {
        '9'
    }
}

/// The two-character identifier of a card.
pub open spec fn card_id_chars(c: Card) -> Seq<char> {
    seq![suit_char_of(c), rank_char_of(c)]
}

/// What a card identifier parses to: a suit letter, then a rank digit in
/// the suit's range; anything else is rejected.
pub open spec fn parse_card_spec(s: Seq<char>) -> Option<Card> {
    if s.len() != 2 {
        None
    } else {
        let r = (s[1] as int) - ('0' as int);
        if !(1 <= r <= 9) {
            None
        } else if s[0] == 'B' {
            Some(card_of_bit(r - 1))
        } else if s[0] == 'Y' {
            Some(card_of_bit(9 + r - 1))
        } else if s[0] == 'M' {
            Some(card_of_bit(18 + r - 1))
        } else if s[0] == 'G' {
            Some(card_of_bit(27 + r - 1))
        } else if s[0] == 'R' {
            if r <= 4 {
                Some(card_of_bit(36 + r - 1))
            } else {
                None
            }
        } else {
            None
        }
    }
}

/// The card at a given bit position of the universe (the last card for
/// a position outside it).
pub open spec fn card_of_bit(i: int) -> Card {
    if i == 0 {
        Card::B1
    } else if i == 1 {
        Card::B2
    } else if i == 2 {
        Card::B3
    } else if i == 3 {
        Card::B4
    } else if i == 4 {
        Card::B5
    } else if i == 5 {
        Card::B6
    } else if i == 6 {
        Card::B7
    } else if i == 7 {
        Card::B8
    } else if i == 8 {
        Card::B9
    } else if i == 9 {
        Card::Y1
    } else if i == 10 {
        Card::Y2
    } else if i == 11 {
        Card::Y3
    } else if i == 12 {
        Card::Y4
    } else if i == 13 {
        Card::Y5
    } else if i == 14 {
        Card::Y6
    } else if i == 15 {
        Card::Y7
    } else if i == 16 {
        Card::Y8
    } else if i == 17 {
        Card::Y9
    } else if i == 18 {
        Card::M1
    } else if i == 19 {
        Card::M2
    } else if i == 20 {
        Card::M3
    } else if i == 21 {
        Card::M4
    } else if i == 22 {
        Card::M5
    } else if i == 23 {
        Card::M6
    } else if i == 24 {
        Card::M7
    } else if i == 25 {
        Card::M8
    } else if i == 26 {
        Card::M9
    } else if i == 27 {
        Card::G1
    } else if i == 28 {
        Card::G2
    } else if i == 29 {
        Card::G3
    } else if i == 30 {
        Card::G4
    } else if i == 31 {
        Card::G5
    } else if i == 32 {
        Card::G6
    } else if i == 33 {
        Card::G7
    } else if i == 34 {
        Card::G8
    } else if i == 35 {
        Card::G9
    } else if i == 36 {
        Card::R1
    } else if i == 37 {
        Card::R2
    } else if i == 38 {
        Card::R3
    } else {
        Card::R4
    }
}

/// Executable form of [`card_of_bit`].
pub fn card_from_index(i: u8) -> (r: Card)
    requires
        i < 40,
    ensures
        r == card_of_bit(i as int),
{
    match i {
        0 => Card::B1,
        1 => Card::B2,
        2 => Card::B3,
        3 => Card::B4,
        4 => Card::B5,
        5 => Card::B6,
        6 => Card::B7,
        7 => Card::B8,
        8 => Card::B9,
        9 => Card::Y1,
        10 => Card::Y2,
        11 => Card::Y3,
        12 => Card::Y4,
        13 => Card::Y5,
        14 => Card::Y6,
        15 => Card::Y7,
        16 => Card::Y8,
        17 => Card::Y9,
        18 => Card::M1,
        19 => Card::M2,
        20 => Card::M3,
        21 => Card::M4,
        22 => Card::M5,
        23 => Card::M6,
        24 => Card::M7,
        25 => Card::M8,
        26 => Card::M9,
        27 => Card::G1,
        28 => Card::G2,
        29 => Card::G3,
        30 => Card::G4,
        31 => Card::G5,
        32 => Card::G6,
        33 => Card::G7,
        34 => Card::G8,
        35 => Card::G9,
        36 => Card::R1,
        37 => Card::R2,
        38 => Card::R3,
        _ => Card::R4,
    }
}

/// The two-character identifier of a card: suit letter then rank digit.
pub fn card_to_str(card: Card) -> (r: String)
    ensures
        r@ == card_id_chars(card),
{
    match card {
        Card::B1 => {
            proof {
                reveal_strlit("B1");
                assert(("B1")@ =~= card_id_chars(Card::B1));
            }
            String::from_str("B1")
        },
        Card::B2 => {
            proof {
                reveal_strlit("B2");
                assert(("B2")@ =~= card_id_chars(Card::B2));
            }
            String::from_str("B2")
        },
        Card::B3 => {
            proof {
                reveal_strlit("B3");
                assert(("B3")@ =~= card_id_chars(Card::B3));
            }
            String::from_str("B3")
        },
        Card::B4 => {
            proof {
                reveal_strlit("B4");
                assert(("B4")@ =~= card_id_chars(Card::B4));
            }
            String::from_str("B4")
        },
        Card::B5 => {
            proof {
                reveal_strlit("B5");
                assert(("B5")@ =~= card_id_chars(Card::B5));
            }
            String::from_str("B5")
        },
        Card::B6 => {
            proof {
                reveal_strlit("B6");
                assert(("B6")@ =~= card_id_chars(Card::B6));
            }
            String::from_str("B6")
        },
        Card::B7 => {
            proof {
                reveal_strlit("B7");
                assert(("B7")@ =~= card_id_chars(Card::B7));
            }
            String::from_str("B7")
        },
        Card::B8 => {
            proof {
                reveal_strlit("B8");
                assert(("B8")@ =~= card_id_chars(Card::B8));
            }
            String::from_str("B8")
        },
        Card::B9 => {
            proof {
                reveal_strlit("B9");
                assert(("B9")@ =~= card_id_chars(Card::B9));
            }
            String::from_str("B9")
        },
        Card::Y1 => {
            proof {
                reveal_strlit("Y1");
                assert(("Y1")@ =~= card_id_chars(Card::Y1));
            }
            String::from_str("Y1")
        },
        Card::Y2 => {
            proof {
                reveal_strlit("Y2");
                assert(("Y2")@ =~= card_id_chars(Card::Y2));
            }
            String::from_str("Y2")
        },
        Card::Y3 => {
            proof {
                reveal_strlit("Y3");
                assert(("Y3")@ =~= card_id_chars(Card::Y3));
            }
            String::from_str("Y3")
        },
        Card::Y4 => {
            proof {
                reveal_strlit("Y4");
                assert(("Y4")@ =~= card_id_chars(Card::Y4));
            }
            String::from_str("Y4")
        },
        Card::Y5 => {
            proof {
                reveal_strlit("Y5");
                assert(("Y5")@ =~= card_id_chars(Card::Y5));
            }
            String::from_str("Y5")
        },
        Card::Y6 => {
            proof {
                reveal_strlit("Y6");
                assert(("Y6")@ =~= card_id_chars(Card::Y6));
            }
            String::from_str("Y6")
        },
        Card::Y7 => {
            proof {
                reveal_strlit("Y7");
                assert(("Y7")@ =~= card_id_chars(Card::Y7));
            }
            String::from_str("Y7")
        },
        Card::Y8 => {
            proof {
                reveal_strlit("Y8");
                assert(("Y8")@ =~= card_id_chars(Card::Y8));
            }
            String::from_str("Y8")
        },
        Card::Y9 => {
            proof {
                reveal_strlit("Y9");
                assert(("Y9")@ =~= card_id_chars(Card::Y9));
            }
            String::from_str("Y9")
        },
        Card::M1 => {
            proof {
                reveal_strlit("M1");
                assert(("M1")@ =~= card_id_chars(Card::M1));
            }
            String::from_str("M1")
        },
        Card::M2 => {
            proof {
                reveal_strlit("M2");
                assert(("M2")@ =~= card_id_chars(Card::M2));
            }
            String::from_str("M2")
        },
        Card::M3 => {
            proof {
                reveal_strlit("M3");
                assert(("M3")@ =~= card_id_chars(Card::M3));
            }
            String::from_str("M3")
        },
        Card::M4 => {
            proof {
                reveal_strlit("M4");
                assert(("M4")@ =~= card_id_chars(Card::M4));
            }
            String::from_str("M4")
        },
        Card::M5 => {
            proof {
                reveal_strlit("M5");
                assert(("M5")@ =~= card_id_chars(Card::M5));
            }
            String::from_str("M5")
        },
        Card::M6 => {
            proof {
                reveal_strlit("M6");
                assert(("M6")@ =~= card_id_chars(Card::M6));
            }
            String::from_str("M6")
        },
        Card::M7 => {
            proof {
                reveal_strlit("M7");
                assert(("M7")@ =~= card_id_chars(Card::M7));
            }
            String::from_str("M7")
        },
        Card::M8 => {
            proof {
                reveal_strlit("M8");
                assert(("M8")@ =~= card_id_chars(Card::M8));
            }
            String::from_str("M8")
        },
        Card::M9 => {
            proof {
                reveal_strlit("M9");
                assert(("M9")@ =~= card_id_chars(Card::M9));
            }
            String::from_str("M9")
        },
        Card::G1 => {
            proof {
                reveal_strlit("G1");
                assert(("G1")@ =~= card_id_chars(Card::G1));
            }
            String::from_str("G1")
        },
        Card::G2 => {
            proof {
                reveal_strlit("G2");
                assert(("G2")@ =~= card_id_chars(Card::G2));
            }
            String::from_str("G2")
        },
        Card::G3 => {
            proof {
                reveal_strlit("G3");
                assert(("G3")@ =~= card_id_chars(Card::G3));
            }
            String::from_str("G3")
        },
        Card::G4 => {
            proof {
                reveal_strlit("G4");
                assert(("G4")@ =~= card_id_chars(Card::G4));
            }
            String::from_str("G4")
        },
        Card::G5 => {
            proof {
                reveal_strlit("G5");
                assert(("G5")@ =~= card_id_chars(Card::G5));
            }
            String::from_str("G5")
        },
        Card::G6 => {
            proof {
                reveal_strlit("G6");
                assert(("G6")@ =~= card_id_chars(Card::G6));
            }
            String::from_str("G6")
        },
        Card::G7 => {
            proof {
                reveal_strlit("G7");
                assert(("G7")@ =~= card_id_chars(Card::G7));
            }
            String::from_str("G7")
        },
        Card::G8 => {
            proof {
                reveal_strlit("G8");
                assert(("G8")@ =~= card_id_chars(Card::G8));
            }
            String::from_str("G8")
        },
        Card::G9 => {
            proof {
                reveal_strlit("G9");
                assert(("G9")@ =~= card_id_chars(Card::G9));
            }
            String::from_str("G9")
        },
        Card::R1 => {
            proof {
                reveal_strlit("R1");
                assert(("R1")@ =~= card_id_chars(Card::R1));
            }
            String::from_str("R1")
        },
        Card::R2 => {
            proof {
                reveal_strlit("R2");
                assert(("R2")@ =~= card_id_chars(Card::R2));
            }
            String::from_str("R2")
        },
        Card::R3 => {
            proof {
                reveal_strlit("R3");
                assert(("R3")@ =~= card_id_chars(Card::R3));
            }
            String::from_str("R3")
        },
        Card::R4 => {
            proof {
                reveal_strlit("R4");
                assert(("R4")@ =~= card_id_chars(Card::R4));
            }
            String::from_str("R4")
        },
    }
}

/// Turns a card identifier into the card it names, or nothing for a
/// malformed or out-of-range identifier.
pub fn str_to_card(card_str: &str) -> (r: Option<Card>)
    ensures
        r == parse_card_spec(card_str@),
{
    let n = card_str.unicode_len();
    if n != 2 {
        return None;
    }
    let suit_ch = card_str.get_char(0);
    let rank_ch = card_str.get_char(1);
    let rc = rank_ch as u32;
    if rc < 49 || rc > 57 {
        return None;
    }
    let value: u8 = (rc - 48) as u8;
    match suit_ch {
        'B' => Some(card_from_index(value - 1)),
        'Y' => Some(card_from_index(9 + value - 1)),
        'M' => Some(card_from_index(18 + value - 1)),
        'G' => Some(card_from_index(27 + value - 1)),
        'R' => {
            if value <= 4 {
                Some(card_from_index(36 + value - 1))
            } else {
                None
            }
        },
        _ => None,
    }
}

/// Identifiers name their cards and back without loss.
pub proof fn lemma_card_round_trip(c: Card)
    ensures
        parse_card_spec(card_id_chars(c)) == Some(c),
{
}

/// A hand rendered to its identifier list and parsed back is the same
/// hand, card for card.
pub proof fn lemma_hand_round_trip(cards: Seq<Card>)
    ensures
        parse_cards_spec(Seq::new(cards.len(), |i: int| card_id_chars(cards[i]))) == Some(cards),
    decreases cards.len(),
{
    let ids = Seq::new(cards.len(), |i: int| card_id_chars(cards[i]));
    if cards.len() == 0 {
        assert(ids =~= Seq::<Seq<char>>::empty());
    } else {
        let front = cards.drop_last();
        lemma_hand_round_trip(front);
        assert(ids.drop_last() =~= Seq::new(front.len(), |i: int| card_id_chars(front[i])));
        lemma_card_round_trip(cards.last());
        assert(ids.last() == card_id_chars(cards.last()));
        assert(front.push(cards.last()) =~= cards);
    }
}

/// Character-for-character string equality.
pub fn str_eq(a: &str, b: &str) -> (r: bool)
    ensures
        r == (a@ == b@),
{
    let na = a.unicode_len();
    let nb = b.unicode_len();
    if na != nb {
        proof {
            if a@ == b@ {
                assert(a@.len() == b@.len());
            }
        }
        return false;
    }
    let mut i: usize = 0;
    while i < na
        invariant
            i <= na,
            na == a@.len(),
            nb == b@.len(),
            na == nb,
            forall|j: int| 0 <= j < i ==> a@[j] == b@[j],
        decreases na - i,
    {
        if a.get_char(i) != b.get_char(i) {
            proof {
                if a@ == b@ {
                    assert(a@[i as int] == b@[i as int]);
                }
            }
            return false;
        }
        i = i + 1;
    }
    proof {
        assert(a@ =~= b@);
    }
    true
}

/// What a list of card identifiers parses to, in order; one bad
/// identifier rejects the whole list.
pub open spec fn parse_cards_spec(ss: Seq<Seq<char>>) -> Option<Seq<Card>>
    decreases ss.len(),
{
    if ss.len() == 0 {
        Some(Seq::empty())
    } else {
        match (parse_cards_spec(ss.drop_last()), parse_card_spec(ss.last())) {
            (Some(cs), Some(c)) => Some(cs.push(c)),
            _ => None,
        }
    }
}

/// The views of a sequence of string slices.
pub open spec fn strs_view(ss: Seq<&str>) -> Seq<Seq<char>> {
    Seq::new(ss.len(), |i: int| ss[i]@)
}

/// Parses a list of card identifiers into the set of the cards they
/// name.
pub fn to_card_set(cards: &[&str]) -> (r: Option<CardSet>)
    ensures
        match parse_cards_spec(strs_view(cards@)) {
            Some(cs) => r matches Some(x) && x@ == cards_bits(cs),
            None => r is None,
        },
{
    let ghost ss = strs_view(cards@);
    let mut acc = CardSet::from_raw(0);
    let ghost mut parsed: Seq<Card> = Seq::empty();
    proof {
        crate::card::lemma_empty_iff_zero(acc);
        assert(ss.take(0) =~= Seq::<Seq<char>>::empty());
        assert(acc@ =~= cards_bits(parsed));
    }
    let n = cards.len();
    let mut k: usize = 0;
    while k < n
        invariant
            n == cards@.len(),
            n == ss.len(),
            ss == strs_view(cards@),
            k <= n,
            parse_cards_spec(ss.take(k as int)) == Some(parsed),
            acc@ == cards_bits(parsed),
        decreases n - k,
    {
        proof {
            assert(ss.take(k + 1).drop_last() =~= ss.take(k as int));
            assert(ss.take(k + 1).last() == ss[k as int]);
        }
        let c = match str_to_card(cards[k]) {
            Some(c) => c,
            None => {
                proof {
                    lemma_parse_cards_prefix_none(ss, k as int);
                }
                return None;
            },
        };
        let one = CardSet::from_card(c);
        let next = acc.add(one);
        proof {
            crate::card::lemma_cards_bits_push_pub(parsed.push(c));
            assert(parsed.push(c).drop_last() =~= parsed);
            assert(next@ =~= cards_bits(parsed.push(c)));
            parsed = parsed.push(c);
        }
        acc = next;
        k = k + 1;
    }
    proof {
        assert(ss.take(n as int) =~= ss);
    }
    Some(acc)
}

/// A list with one unparsable identifier parses to nothing, wherever the
/// identifier sits.
proof fn lemma_parse_cards_prefix_none(ss: Seq<Seq<char>>, k: int)
    requires
        0 <= k < ss.len(),
        parse_card_spec(ss[k]) is None,
    ensures
        parse_cards_spec(ss) is None,
    decreases ss.len(),
{
    if ss.len() > 0 {
        if k == ss.len() - 1 {
        } else {
            lemma_parse_cards_prefix_none(ss.drop_last(), k);
        }
    }
}

/// What one run of the program reports: whether the input was readable,
/// the search's verdict, and how long the search took.
#[derive(Debug)]
pub struct RunOutput {
    pub success: bool,
    pub result: bool,
    pub duration: u128,
}

impl RunOutput {
    pub fn new(success: bool, result: bool, duration: u128) -> (r: Self)
        ensures
            r.success == success,
            r.result == result,
            r.duration == duration,
    {
        Self { success, result, duration }
    }
}

/// One task entry of the external description, as plain values: the
/// tier name, the sort key inside the tier, the card identifier, and the
/// assigned player.
#[derive(Debug)]
pub struct TaskDTO {
    pub task_type: String,
    pub order: u8,
    pub card: String,
    pub player_num: u8,
}

/// What one task entry parses to.
pub open spec fn dto_task_spec(d: TaskDTO) -> Option<Task> {
    match parse_card_spec(d.card@) {
        Some(c) => Some(Task { player: d.player_num, card: c }),
        None => None,
    }
}

/// The entries of a given tier with their sort keys, in listed order,
/// each parsed; one unparsable entry rejects the whole tier.
pub open spec fn collect_tasks(s: Seq<TaskDTO>, ty: Seq<char>) -> Option<Seq<(u8, Task)>>
    decreases s.len(),
{
    if s.len() == 0 {
        Some(Seq::empty())
    } else {
        match collect_tasks(s.drop_last(), ty) {
            Some(front) => {
                if s.last().task_type@ == ty {
                    match dto_task_spec(s.last()) {
                        Some(t) => Some(front.push((s.last().order, t))),
                        None => None,
                    }
                } else {
                    Some(front)
                }
            },
            None => None,
        }
    }
}

/// Inserts an element behind every element whose key does not exceed
/// its own: the insertion step of a stable sort.
pub open spec fn insert_pair(s: Seq<(u8, Task)>, e: (u8, Task)) -> Seq<(u8, Task)>
    decreases s.len(),
{
    if s.len() == 0 {
        seq![e]
    } else if s.last().0 <= e.0 {
        s.push(e)
    } else {
        insert_pair(s.drop_last(), e).push(s.last())
    }
}

/// Stable insertion sort by key: entries with equal keys keep their
/// listed order.
pub open spec fn sort_pairs(s: Seq<(u8, Task)>) -> Seq<(u8, Task)>
    decreases s.len(),
{
    if s.len() == 0 {
        Seq::empty()
    } else {
        insert_pair(sort_pairs(s.drop_last()), s.last())
    }
}

/// The tasks of a key-task sequence, keys dropped.
pub open spec fn pair_tasks(s: Seq<(u8, Task)>) -> Seq<Task> {
    Seq::new(s.len(), |i: int| s[i].1)
}

/// The tier list an external description yields: its matching entries,
/// stably sorted by key, parsed.
pub open spec fn tasks_of_type_spec(s: Seq<TaskDTO>, ty: Seq<char>) -> Option<Seq<Task>> {
    match collect_tasks(s, ty) {
        Some(ps) => Some(pair_tasks(sort_pairs(ps))),
        None => None,
    }
}

/// Splitting view of one stable-insertion step.
proof fn lemma_insert_split(s: Seq<(u8, Task)>, e: (u8, Task), p: int)
    requires
        0 <= p <= s.len(),
        forall|j: int| p <= j < s.len() ==> (#[trigger] s[j]).0 > e.0,
        p > 0 ==> s[p - 1].0 <= e.0,
    ensures
        insert_pair(s, e) == s.take(p).push(e) + s.skip(p),
    decreases s.len(),
{
    if s.len() == 0 {
        assert(insert_pair(s, e) =~= s.take(0).push(e) + s.skip(0));
    } else if s.last().0 <= e.0 {
        assert(p == s.len());
        assert(insert_pair(s, e) =~= s.take(p).push(e) + s.skip(p));
    } else {
        let f = s.drop_last();
        assert forall|j: int| p <= j < f.len() implies (#[trigger] f[j]).0 > e.0 by {
            assert(f[j] == s[j]);
        }
        lemma_insert_split(f, e, p);
        assert(f.take(p) =~= s.take(p));
        assert((f.take(p).push(e) + f.skip(p)).push(s.last()) =~= s.take(p).push(e) + s.skip(p));
    }
}

/// An unparsable matching entry rejects the whole tier, wherever it
/// sits.
proof fn lemma_collect_none(s: Seq<TaskDTO>, ty: Seq<char>, k: int)
    requires
        0 <= k < s.len(),
        s[k].task_type@ == ty,
        dto_task_spec(s[k]) is None,
    ensures
        collect_tasks(s, ty) is None,
    decreases s.len(),
{
    if k < s.len() - 1 {
        lemma_collect_none(s.drop_last(), ty, k);
    }
}

/// Inserts one key-task pair behind every pair whose key does not
/// exceed its own.
fn insert_sorted(acc: &mut Vec<(u8, Task)>, e: (u8, Task))
    ensures
        final(acc)@ == insert_pair(old(acc)@, e),
{
    let mut p: usize = acc.len();
    while p > 0 && acc[p - 1].0 > e.0
        invariant
            p <= acc@.len(),
            acc@ == old(acc)@,
            forall|j: int| p <= j < acc@.len() ==> (#[trigger] acc@[j]).0 > e.0,
        decreases p,
    {
        p = p - 1;
    }
    proof {
        lemma_insert_split(acc@, e, p as int);
        assert(acc@.insert(p as int, e) =~= acc@.take(p as int).push(e) + acc@.skip(p as int));
    }
    acc.insert(p, e);
}

/// The tasks of one tier of an external description: the entries naming
/// the tier, stably sorted by their order key, their cards parsed.
pub fn tasks_of_type(tasks: &[TaskDTO], task_type: &str) -> (r: Option<Vec<Task>>)
    ensures
        match tasks_of_type_spec(tasks@, task_type@) {
            Some(ts) => r matches Some(v) && v@ == ts,
            None => r is None,
        },
{
    let ghost s = tasks@;
    let ghost ty = task_type@;
    let mut acc: Vec<(u8, Task)> = Vec::new();
    let ghost mut collected: Seq<(u8, Task)> = Seq::empty();
    proof {
        assert(s.take(0) =~= Seq::<TaskDTO>::empty());
    }
    let n = tasks.len();
    let mut k: usize = 0;
    while k < n
        invariant
            n == s.len(),
            s == tasks@,
            ty == task_type@,
            k <= n,
            collect_tasks(s.take(k as int), ty) == Some(collected),
            acc@ == sort_pairs(collected),
        decreases n - k,
    {
        proof {
            assert(s.take(k + 1).drop_last() =~= s.take(k as int));
            assert(s.take(k + 1).last() == s[k as int]);
        }
        let d = slice_index_get(tasks, k);
        if str_eq(d.task_type.as_str(), task_type) {
            match str_to_card(d.card.as_str()) {
                Some(c) => {
                    let t = Task::new(d.player_num, c);
                    let e = (d.order, t);
                    insert_sorted(&mut acc, e);
                    proof {
                        assert(dto_task_spec(s[k as int]) == Some(t));
                        let grown = collected.push(e);
                        assert(grown.drop_last() =~= collected);
                        assert(grown.last() == e);
                        assert(sort_pairs(grown) == insert_pair(sort_pairs(collected), e));
                        collected = grown;
                    }
                },
                None => {
                    proof {
                        assert(dto_task_spec(s[k as int]) is None);
                        lemma_collect_none(s, ty, k as int);
                    }
                    return None;
                },
            }
        }
        k = k + 1;
    }
    proof {
        assert(s.take(n as int) =~= s);
    }
    let mut out: Vec<Task> = Vec::new();
    let m = acc.len();
    let mut i: usize = 0;
    while i < m
        invariant
            m == acc@.len(),
            i <= m,
            out@.len() == i,
            forall|j: int| 0 <= j < i ==> out@[j] == (#[trigger] acc@[j]).1,
        decreases m - i,
    {
        out.push(acc[i].1);
        i = i + 1;
    }
    proof {
        assert(out@ =~= pair_tasks(acc@));
    }
    Some(out)
}

/// The identifier sequences of one listed hand.
pub open spec fn hand_ids(h: Vec<String>) -> Seq<Seq<char>> {
    Seq::new(h@.len(), |i: int| h@[i]@)
}

/// The card set a listed hand parses to, as bit positions.
pub open spec fn hand_set_of(h: Vec<String>) -> Set<int> {
    match parse_cards_spec(hand_ids(h)) {
        Some(cs) => cards_bits(cs),
        None => Set::empty(),
    }
}

/// The tier list an external description yields, or empty where it
/// yields none.
pub open spec fn tier_of(tasks: Seq<TaskDTO>, ty: Seq<char>) -> Seq<Task> {
    match tasks_of_type_spec(tasks, ty) {
        Some(ts) => ts,
        None => Seq::empty(),
    }
}

/// When an external description makes a well-formed game state: four
/// hands of valid identifiers, pairwise disjoint, a real leader seat,
/// and four tiers that parse and fit their queues.
pub open spec fn parse_state_ok(hands: Seq<Vec<String>>, tasks: Seq<TaskDTO>, curr_leader: u8) -> bool {
    &&& hands.len() == 4
    &&& curr_leader < 4
    &&& forall|j: int| 0 <= j < 4 ==> parse_cards_spec(hand_ids(#[trigger] hands[j])) is Some
    &&& forall|i: int, j: int|
        #![trigger hands[i], hands[j]]
        0 <= i < j < 4 ==> hand_set_of(hands[i]).intersect(hand_set_of(hands[j]))
            == Set::<int>::empty()
    &&& tasks_of_type_spec(tasks, "absolute"@) is Some
    &&& tasks_of_type_spec(tasks, "relative"@) is Some
    &&& tasks_of_type_spec(tasks, "anytime"@) is Some
    &&& tasks_of_type_spec(tasks, "last"@) is Some
    &&& tier_of(tasks, "absolute"@).len() <= TASK_LIST_LENGTH
    &&& tier_of(tasks, "relative"@).len() <= TASK_LIST_LENGTH
    &&& tier_of(tasks, "anytime"@).len() <= TASK_LIST_LENGTH
}

/// Parses one listed hand into its card set.
fn parse_hand(h: &Vec<String>) -> (r: Option<CardSet>)
    ensures
        match parse_cards_spec(hand_ids(*h)) {
            Some(cs) => r matches Some(x) && x@ == cards_bits(cs) && x@ == hand_set_of(*h),
            None => r is None,
        },
{
    let mut refs: Vec<&str> = Vec::new();
    let n = h.len();
    let mut i: usize = 0;
    while i < n
        invariant
            n == h@.len(),
            i <= n,
            refs@.len() == i,
            forall|j: int| 0 <= j < i ==> (#[trigger] refs@[j])@ == h@[j]@,
        decreases n - i,
    {
        refs.push(slice_index_get(h.as_slice(), i).as_str());
        i = i + 1;
    }
    proof {
        assert(strs_view(refs@) =~= hand_ids(*h));
    }
    to_card_set(refs.as_slice())
}

/// Builds the game state an external description names: hands, tiered
/// objective and leader, rejecting any description that breaks the
/// state's invariants.
pub fn parse_state(hands: &Vec<Vec<String>>, tasks: &Vec<TaskDTO>, curr_leader: u8) -> (r: Option<
    GameState,
>)
    ensures
        match r {
            Some(st) => {
                &&& parse_state_ok(hands@, tasks@, curr_leader)
                &&& st.wf()
                &&& st.curr_leader == curr_leader
                &&& forall|j: int| 0 <= j < 4 ==> (#[trigger] st.hands@[j])@ == hand_set_of(hands@[j])
                &&& st.tasks.absolute_tasks.tasks@ == tier_of(tasks@, "absolute"@)
                &&& st.tasks.relative_tasks.tasks@ == tier_of(tasks@, "relative"@)
                &&& st.tasks.anytime_tasks.tasks@ == tier_of(tasks@, "anytime"@)
                &&& st.tasks.last_task == (if tier_of(tasks@, "last"@).len() > 0 {
                    Some(tier_of(tasks@, "last"@)[0])
                } else {
                    None::<Task>
                })
            },
            None => !parse_state_ok(hands@, tasks@, curr_leader),
        },
{
    if hands.len() != 4 {
        return None;
    }
    if curr_leader >= 4 {
        return None;
    }
    let h0 = match parse_hand(slice_index_get(hands.as_slice(), 0)) {
        Some(h) => h,
        None => {
            return None;
        },
    };
    let h1 = match parse_hand(slice_index_get(hands.as_slice(), 1)) {
        Some(h) => h,
        None => {
            return None;
        },
    };
    let h2 = match parse_hand(slice_index_get(hands.as_slice(), 2)) {
        Some(h) => h,
        None => {
            return None;
        },
    };
    let h3 = match parse_hand(slice_index_get(hands.as_slice(), 3)) {
        Some(h) => h,
        None => {
            return None;
        },
    };
    if h0.overlaps_with(h1) || h0.overlaps_with(h2) || h0.overlaps_with(h3) || h1.overlaps_with(h2)
        || h1.overlaps_with(h3) || h2.overlaps_with(h3) {
        return None;
    }
    let absolute = match tasks_of_type(tasks.as_slice(), "absolute") {
        Some(v) => v,
        None => {
            return None;
        },
    };
    let relative = match tasks_of_type(tasks.as_slice(), "relative") {
        Some(v) => v,
        None => {
            return None;
        },
    };
    let anytime = match tasks_of_type(tasks.as_slice(), "anytime") {
        Some(v) => v,
        None => {
            return None;
        },
    };
    let last_vec = match tasks_of_type(tasks.as_slice(), "last") {
        Some(v) => v,
        None => {
            return None;
        },
    };
    if absolute.len() > TASK_LIST_LENGTH || relative.len() > TASK_LIST_LENGTH || anytime.len()
        > TASK_LIST_LENGTH {
        return None;
    }
    let last_task = if last_vec.len() > 0 {
        Some(last_vec[0])
    } else {
        None
    };
    let obj = TasksObjective::new(
        absolute.as_slice(),
        relative.as_slice(),
        anytime.as_slice(),
        last_task,
    );
    let state = GameState::new([h0, h1, h2, h3], obj, curr_leader);
    proof {
        assert forall|c: Card| 0 <= #[trigger] card_bit(c) < 40 by {}
        assert forall|j: int| 0 <= j < 4 implies (#[trigger] state.hands@[j]).0 & !crate::suit::UNIVERSE
            == 0 by {
            let x = state.hands@[j];
            assert forall|i: int| x@.contains(i) implies 0 <= i < 40 by {
                let cs = parse_cards_spec(hand_ids(hands@[j]))->Some_0;
                let k = choose|k: int| 0 <= k < cs.len() && card_bit(cs[k]) == i;
            }
            crate::card::lemma_in_universe(x);
        }
        assert forall|i: int, j: int| 0 <= i < j < 4 implies (#[trigger] state.hands@[i]).0 & (
        #[trigger] state.hands@[j]).0 == 0 by {
            crate::card::lemma_overlap_raw(state.hands@[i], state.hands@[j]);
        }
    }
    Some(state)
}

} // verus!
