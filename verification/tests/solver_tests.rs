use thecrewsolver::card::Card;
use thecrewsolver::card::Card::{
    B1, B2, B3, B4, B5, B6, B7, B8, B9, G1, G2, G3, G4, G5, G6, G7, G8, G9, M1, M2, M3, M4, M5,
    M6, M7, M8, M9, R1, R2, R3, R4, Y1, Y2, Y3, Y4, Y5, Y6, Y7, Y8, Y9,
};
use thecrewsolver::card::CardSet;
use thecrewsolver::cli::{parse_state, RunOutput, TaskDTO};
use thecrewsolver::play::Play;
use thecrewsolver::suit;
use thecrewsolver::play::{Hands, PlayGenerator};
use thecrewsolver::solver::{solve, GameState};
use thecrewsolver::tasks::{Task, TasksObjective};

fn full_deal() -> Hands {
    [
        CardSet::from_cards(&[B8, B9, Y1, Y2, Y3, M1, M2, G1, G2, R1]),
        CardSet::from_cards(&[B1, B2, B3, Y4, Y5, M3, M4, G3, G4, R2]),
        CardSet::from_cards(&[B4, B5, Y6, Y7, M5, M6, M7, G5, G6, R3]),
        CardSet::from_cards(&[B6, B7, Y8, Y9, M8, M9, G7, G8, G9, R4]),
    ]
}

#[test]
fn test_solve_full_deal_success() {
    // player 0 holds B8, leads it first, and wins the first trick
    let hands = full_deal();
    let tasks = TasksObjective::new(&[Task::new(0, B8)], &[], &[], None);
    let state = GameState::new(hands, tasks, 0);
    assert!(solve(&state));
}

#[test]
fn test_solve_small_deal_failure() {
    // B8 sits with player 0 and every branch has it won by player 0,
    // so a task giving it to player 1 cannot be met
    let hands: Hands = [
        CardSet::from_cards(&[B8, Y1]),
        CardSet::from_cards(&[B1, Y2]),
        CardSet::from_cards(&[B2, Y3]),
        CardSet::from_cards(&[B3, Y4]),
    ];
    let tasks = TasksObjective::new(&[Task::new(1, B8)], &[], &[], None);
    let state = GameState::new(hands, tasks, 0);
    assert!(!solve(&state));
}

#[test]
fn test_solve_small_deal_success() {
    let hands: Hands = [
        CardSet::from_cards(&[B8, Y1]),
        CardSet::from_cards(&[B1, Y2]),
        CardSet::from_cards(&[B2, Y3]),
        CardSet::from_cards(&[B3, Y4]),
    ];
    let tasks = TasksObjective::new(&[Task::new(0, B8)], &[], &[], None);
    let state = GameState::new(hands, tasks, 0);
    assert!(solve(&state));
}

#[test]
fn test_solve_last_task_ordering() {
    // the final task's card and an ordered task's card can only fall in
    // the right order
    let hands: Hands = [
        CardSet::from_cards(&[B8, Y1]),
        CardSet::from_cards(&[B1, Y2]),
        CardSet::from_cards(&[B2, Y3]),
        CardSet::from_cards(&[B3, Y4]),
    ];
    // last task on Y4 (player 3 wins the yellow trick), absolute on B8
    let tasks = TasksObjective::new(&[Task::new(0, B8)], &[], &[], Some(Task::new(3, Y4)));
    let state = GameState::new(hands, tasks, 0);
    assert!(solve(&state));
}

#[test]
fn test_generator_exhaustive_over_full_deal() {
    // over a full-universe deal whose leader holds every suit, the
    // enumeration plays every card of every hand, one card per player
    // per play, and its length is the sum over leader cards of the
    // product of the followers' legal-choice counts
    let hands = full_deal();
    let mut pg = PlayGenerator::new(&hands, 0);
    let mut count: usize = 0;
    let mut seen: [CardSet; 4] = [
        CardSet::from_raw(0),
        CardSet::from_raw(0),
        CardSet::from_raw(0),
        CardSet::from_raw(0),
    ];
    loop {
        let play = match pg.next() {
            Some(p) => p,
            None => break,
        };
        count += 1;
        assert_eq!(play.cards().num_set(), 4);
        for p in 0..4 {
            let contributed = play.cards().intersect(hands[p]);
            assert_eq!(contributed.num_set(), 1);
            // follow suit: a follower holding the lead suit plays it
            if p != 0 && hands[p].overlaps_with(play.lead_suit) {
                assert!(contributed.is_covered_by(play.lead_suit));
            }
            seen[p] = seen[p].add(contributed);
        }
    }
    // 2 blue leads * 12 + 3 yellow * 8 + 2 magenta * 12 + 2 green * 12
    // + 1 rocket lead * 1
    assert_eq!(count, 97);
    for p in 0..4 {
        assert_eq!(seen[p], hands[p]);
    }
}

#[test]
fn test_parse_state() {
    let hands: Vec<Vec<String>> = vec![
        vec!["B3".to_string()],
        vec!["B9".to_string()],
        vec!["G3".to_string()],
        vec!["G2".to_string()],
    ];
    let tasks = vec![TaskDTO {
        task_type: "absolute".to_string(),
        order: 0,
        card: "G2".to_string(),
        player_num: 1,
    }];
    let state = parse_state(&hands, &tasks, 0).unwrap();
    // player 1 wins the only trick with B9 while G2 falls into it
    assert!(solve(&state));
}

#[test]
fn test_parse_state_rejects_bad_input() {
    let good_hands: Vec<Vec<String>> = vec![
        vec!["B3".to_string()],
        vec!["B9".to_string()],
        vec!["G3".to_string()],
        vec!["G2".to_string()],
    ];
    let no_tasks: Vec<TaskDTO> = vec![];

    // wrong number of hands
    let three: Vec<Vec<String>> = good_hands[0..3].to_vec();
    assert!(parse_state(&three, &no_tasks, 0).is_none());
    // a bad identifier
    let bad: Vec<Vec<String>> = vec![
        vec!["B0".to_string()],
        vec!["B9".to_string()],
        vec!["G3".to_string()],
        vec!["G2".to_string()],
    ];
    assert!(parse_state(&bad, &no_tasks, 0).is_none());
    // one card in two hands
    let overlap: Vec<Vec<String>> = vec![
        vec!["B3".to_string()],
        vec!["B3".to_string()],
        vec!["G3".to_string()],
        vec!["G2".to_string()],
    ];
    assert!(parse_state(&overlap, &no_tasks, 0).is_none());
    // leader seat out of range
    assert!(parse_state(&good_hands, &no_tasks, 4).is_none());
    // a tier over its capacity
    let mut many: Vec<TaskDTO> = Vec::new();
    let ids = [
        "B1", "B2", "B4", "B5", "B6", "B7", "B8", "Y1", "Y2", "Y3", "Y4", "Y5", "Y6",
    ];
    for (i, id) in ids.iter().enumerate() {
        many.push(TaskDTO {
            task_type: "absolute".to_string(),
            order: i as u8,
            card: id.to_string(),
            player_num: 0,
        });
    }
    assert!(parse_state(&good_hands, &many, 0).is_none());
    // an unparsable task card
    let bad_task = vec![TaskDTO {
        task_type: "anytime".to_string(),
        order: 0,
        card: "Q1".to_string(),
        player_num: 0,
    }];
    assert!(parse_state(&good_hands, &bad_task, 0).is_none());
}

#[test]
fn test_run_output_new() {
    let out = RunOutput::new(true, false, 42);
    assert!(out.success);
    assert!(!out.result);
    assert_eq!(out.duration, 42);
}

#[test]
fn test_trick_winner_trump_over_any_lead() {
    // adding a rocket always hands the trick to the highest rocket
    let leads = [suit::BLUE, suit::YELLOW, suit::MAGENTA, suit::GREEN];
    for lead in leads {
        let p = Play {
            cards: CardSet::from_cards(&[B9, Y9, R1, R2]),
            lead_suit: CardSet::from_raw(lead),
        };
        assert_eq!(p.get_trick_winner(), CardSet::from_card(R2));
    }
}

#[test]
fn test_anytime_unlike_absolute_order() {
    // the same two tricks, in the order that completes the second task
    // first: the unordered queue accepts them, the ordered queue does
    // not
    let t1 = Task::new(0, B8);
    let t2 = Task::new(1, G1);
    let first = CardSet::from_cards(&[M5, G9, Y2, G1]);
    let second = CardSet::from_cards(&[B1, B5, B8, M3]);
    let anytime = TasksObjective::new(&[], &[], &[t1, t2], None);
    assert!(anytime
        .check(first, 1)
        .unwrap()
        .check(second, 0)
        .unwrap()
        .is_complete());
    let ordered = TasksObjective::new(&[t1, t2], &[], &[], None);
    assert!(ordered.check(first, 1).is_none());
}

#[test]
fn test_card_index_round_trip() {
    let all = [
        Card::B1, Card::B2, Card::B3, Card::B4, Card::B5, Card::B6, Card::B7, Card::B8, Card::B9,
        Card::Y1, Card::Y2, Card::Y3, Card::Y4, Card::Y5, Card::Y6, Card::Y7, Card::Y8, Card::Y9,
        Card::M1, Card::M2, Card::M3, Card::M4, Card::M5, Card::M6, Card::M7, Card::M8, Card::M9,
        Card::G1, Card::G2, Card::G3, Card::G4, Card::G5, Card::G6, Card::G7, Card::G8, Card::G9,
        Card::R1, Card::R2, Card::R3, Card::R4,
    ];
    for (i, c) in all.iter().enumerate() {
        assert_eq!(thecrewsolver::card::card_index(*c) as usize, i);
        assert_eq!(CardSet::from_card(*c).get_raw(), 1u64 << i);
    }
}
