use thecrewsolver::card::Card;
use thecrewsolver::card::CardSet;
use thecrewsolver::cli::{card_to_str, str_to_card, tasks_of_type, to_card_set, TaskDTO};
use thecrewsolver::tasks::Task;

#[test]
fn test_str_to_card() {
    assert_eq!(str_to_card("B1"), Some(Card::B1));
    assert_eq!(str_to_card("B9"), Some(Card::B9));
    assert_eq!(str_to_card("Y1"), Some(Card::Y1));
    assert_eq!(str_to_card("Y9"), Some(Card::Y9));
    assert_eq!(str_to_card("M1"), Some(Card::M1));
    assert_eq!(str_to_card("M9"), Some(Card::M9));
    assert_eq!(str_to_card("G1"), Some(Card::G1));
    assert_eq!(str_to_card("G9"), Some(Card::G9));
    assert_eq!(str_to_card("R1"), Some(Card::R1));
    assert_eq!(str_to_card("R4"), Some(Card::R4));
    assert_eq!(str_to_card(""), None);
    assert_eq!(str_to_card("B"), None);
    assert_eq!(str_to_card("R"), None);
    assert_eq!(str_to_card("1"), None);
    assert_eq!(str_to_card("11"), None);
    assert_eq!(str_to_card("R5"), None);
    assert_eq!(str_to_card("R9"), None);
    assert_eq!(str_to_card("1B"), None);
    assert_eq!(str_to_card("B0"), None);
    assert_eq!(str_to_card("Y0"), None);
    assert_eq!(str_to_card("M0"), None);
    assert_eq!(str_to_card("G0"), None);
    assert_eq!(str_to_card("R0"), None);
    assert_eq!(str_to_card("B11"), None);
    assert_eq!(str_to_card("asdf"), None);
}

#[test]
fn test_to_card_set() {
    assert_eq!(
        to_card_set(&["B6", "M9"]),
        Some(CardSet::from_cards(&[Card::B6, Card::M9]))
    );
    assert_eq!(to_card_set(&["B0", "M9"]), None);
}

#[test]
fn test_tasks_of_type() {
    fn t(task_type: &str, order: u8, card: &str, player_num: u8) -> TaskDTO {
        TaskDTO {
            task_type: task_type.to_string(),
            order,
            card: card.to_string(),
            player_num,
        }
    }

    assert_eq!(tasks_of_type(&[], "absolute"), Some(vec![]));
    assert_eq!(
        tasks_of_type(
            &[
                t("absolute", 1, "B1", 1),
                t("relative", 0, "Y2", 0),
                t("absolute", 2, "M3", 3),
            ],
            "absolute"
        ),
        Some(vec![Task::new(1, Card::B1), Task::new(3, Card::M3)])
    );
    assert_eq!(
        tasks_of_type(
            &[t("absolute", 2, "M3", 3), t("absolute", 1, "B1", 1)],
            "absolute"
        ),
        Some(vec![Task::new(1, Card::B1), Task::new(3, Card::M3)])
    );
}

#[test]
fn test_tasks_of_type_stable_order() {
    fn t(task_type: &str, order: u8, card: &str, player_num: u8) -> TaskDTO {
        TaskDTO {
            task_type: task_type.to_string(),
            order,
            card: card.to_string(),
            player_num,
        }
    }

    // equal keys keep their listed order
    assert_eq!(
        tasks_of_type(
            &[
                t("absolute", 1, "B1", 0),
                t("absolute", 0, "Y1", 1),
                t("absolute", 1, "G1", 2),
            ],
            "absolute"
        ),
        Some(vec![
            Task::new(1, Card::Y1),
            Task::new(0, Card::B1),
            Task::new(2, Card::G1)
        ])
    );
    // a bad card in a matching entry rejects the tier
    assert_eq!(
        tasks_of_type(&[t("absolute", 0, "B0", 0)], "absolute"),
        None
    );
    // a bad card in another tier does not
    assert_eq!(
        tasks_of_type(&[t("relative", 0, "B0", 0)], "absolute"),
        Some(vec![])
    );
}

#[test]
fn test_card_round_trip_all() {
    let all = [
        Card::B1, Card::B2, Card::B3, Card::B4, Card::B5, Card::B6, Card::B7, Card::B8, Card::B9,
        Card::Y1, Card::Y2, Card::Y3, Card::Y4, Card::Y5, Card::Y6, Card::Y7, Card::Y8, Card::Y9,
        Card::M1, Card::M2, Card::M3, Card::M4, Card::M5, Card::M6, Card::M7, Card::M8, Card::M9,
        Card::G1, Card::G2, Card::G3, Card::G4, Card::G5, Card::G6, Card::G7, Card::G8, Card::G9,
        Card::R1, Card::R2, Card::R3, Card::R4,
    ];
    for c in all {
        let s = card_to_str(c);
        assert_eq!(str_to_card(s.as_str()), Some(c));
    }
}

#[test]
fn test_hand_round_trip() {
    let hand = [Card::B8, Card::Y2, Card::M9, Card::G1, Card::R4];
    let mut ids: Vec<String> = Vec::new();
    for c in hand {
        ids.push(card_to_str(c));
    }
    let refs: Vec<&str> = ids.iter().map(|s| s.as_str()).collect();
    assert_eq!(to_card_set(&refs), Some(CardSet::from_cards(&hand)));
}
