use thecrewsolver::card::Card::{
    B1, B2, B3, B4, B5, B8, B9, G1, G2, G3, G4, G9, M1, M3, M4, M9, R1, R2, R3, R4, Y1, Y2, Y3,
    Y4, Y7, Y9,
};
use thecrewsolver::card::CardSet;
use thecrewsolver::play::{Hands, Play, PlayGenerator, PositionCounter};
use thecrewsolver::suit;

fn collect_plays(mut pg: PlayGenerator, max: usize) -> Vec<Play> {
    let mut out: Vec<Play> = Vec::new();
    while out.len() < max {
        match pg.next() {
            Some(p) => out.push(p),
            None => break,
        }
    }
    out
}

#[test]
fn test_get_trick_winner() {
    assert_eq!(
        Play {
            cards: CardSet::from_cards(&[B8, B9, Y2]),
            lead_suit: CardSet::from_raw(suit::BLUE)
        }
        .get_trick_winner(),
        CardSet::from_card(B9)
    );
    assert_eq!(
        Play {
            cards: CardSet::from_cards(&[B8, B9, Y2]),
            lead_suit: CardSet::from_raw(suit::YELLOW)
        }
        .get_trick_winner(),
        CardSet::from_card(Y2)
    );
    assert_eq!(
        Play {
            cards: CardSet::from_cards(&[B8, B9, Y2, R2]),
            lead_suit: CardSet::from_raw(suit::BLUE)
        }
        .get_trick_winner(),
        CardSet::from_card(R2)
    );
    assert_eq!(
        Play {
            cards: CardSet::from_cards(&[B8, Y2, R2, R3]),
            lead_suit: CardSet::from_raw(suit::BLUE)
        }
        .get_trick_winner(),
        CardSet::from_card(R3)
    );
    assert_eq!(
        Play {
            cards: CardSet::from_cards(&[B8, Y2, R3]),
            lead_suit: CardSet::from_raw(suit::ROCKETS)
        }
        .get_trick_winner(),
        CardSet::from_card(R3)
    );
    assert_eq!(
        Play {
            cards: CardSet::from_cards(&[B1, Y9, M9, G9]),
            lead_suit: CardSet::from_raw(suit::BLUE)
        }
        .get_trick_winner(),
        CardSet::from_card(B1)
    );
    assert_eq!(
        Play {
            cards: CardSet::from_cards(&[G1, G2, G3, G4]),
            lead_suit: CardSet::from_raw(suit::GREEN)
        }
        .get_trick_winner(),
        CardSet::from_card(G4)
    );
}

#[test]
fn test_position_counter() {
    let cards = CardSet::from_cards(&[B3, B5, B9, Y2, G4, R1]);
    let mut pc = PositionCounter::new(cards);

    assert_eq!(pc.get_card(), CardSet::from_card(B3));
    assert!(!pc.increment());
    assert_eq!(pc.get_card(), CardSet::from_card(B5));
    assert!(!pc.increment());
    assert_eq!(pc.get_card(), CardSet::from_card(B9));
    assert!(!pc.increment());
    assert_eq!(pc.get_card(), CardSet::from_card(Y2));
    assert!(!pc.increment());
    assert_eq!(pc.get_card(), CardSet::from_card(G4));
    assert!(!pc.increment());
    assert_eq!(pc.get_card(), CardSet::from_card(R1));
    assert!(pc.increment());
    assert_eq!(pc.get_card(), CardSet::from_card(B3));

    pc.reset_with_mask(CardSet::from_raw(suit::BLUE));
    assert_eq!(pc.get_card(), CardSet::from_card(B3));
    assert!(!pc.increment());
    assert_eq!(pc.get_card(), CardSet::from_card(B5));
    assert!(!pc.increment());
    assert_eq!(pc.get_card(), CardSet::from_card(B9));
    assert!(pc.increment());
    assert_eq!(pc.get_card(), CardSet::from_card(B3));

    assert!(!pc.increment());
    assert_eq!(pc.get_card(), CardSet::from_card(B5));
    assert_eq!(pc.get_hand(), cards.get_raw());
}

#[test]
fn test_play_generator() {
    let play = |suit, cards| Play {
        cards: CardSet::from_cards(cards),
        lead_suit: CardSet::from_raw(suit),
    };

    let hands: Hands = [
        CardSet::from_cards(&[B1, M1, G1]),
        CardSet::from_cards(&[B2, G2, R4]),
        CardSet::from_cards(&[Y3, M3, G3]),
        CardSet::from_cards(&[B4, B5, M4]),
    ];

    let expected = vec![
        play(suit::BLUE, &[B1, B2, Y3, B4]),
        play(suit::BLUE, &[B1, B2, Y3, B5]),
        play(suit::BLUE, &[B1, B2, M3, B4]),
        play(suit::BLUE, &[B1, B2, M3, B5]),
        play(suit::BLUE, &[B1, B2, G3, B4]),
        play(suit::BLUE, &[B1, B2, G3, B5]),
        play(suit::MAGENTA, &[M1, B2, M3, M4]),
        play(suit::MAGENTA, &[M1, G2, M3, M4]),
        play(suit::MAGENTA, &[M1, R4, M3, M4]),
        play(suit::GREEN, &[G1, G2, G3, B4]),
        play(suit::GREEN, &[G1, G2, G3, B5]),
        play(suit::GREEN, &[G1, G2, G3, M4]),
    ];

    let pg = PlayGenerator::new(&hands, 0);
    assert_eq!(collect_plays(pg, 26), expected);
}

#[test]
fn test_play_generator_different_leader() {
    let play = |suit, cards| Play {
        cards: CardSet::from_cards(cards),
        lead_suit: CardSet::from_raw(suit),
    };

    let hands: Hands = [
        CardSet::from_cards(&[B1, Y1]),
        CardSet::from_cards(&[B2, Y2]),
        CardSet::from_cards(&[Y3, Y7]),
        CardSet::from_cards(&[B4, Y4]),
    ];

    let expected = vec![
        play(suit::YELLOW, &[Y1, Y2, Y3, Y4]),
        play(suit::YELLOW, &[Y1, Y2, Y7, Y4]),
    ];

    let pg = PlayGenerator::new(&hands, 2);
    assert_eq!(collect_plays(pg, 26), expected);
}

#[test]
fn test_play_generator_empty_hand_yields_nothing() {
    let hands: Hands = [
        CardSet::from_cards(&[B1, B2]),
        CardSet::from_cards(&[]),
        CardSet::from_cards(&[Y3]),
        CardSet::from_cards(&[Y4]),
    ];
    let mut pg = PlayGenerator::new(&hands, 0);
    assert!(pg.next().is_none());
    assert!(pg.next().is_none());
}

#[test]
fn test_play_generator_lead_includes_low_card() {
    // a follower whose legal cards include the lowest card of the
    // universe must still offer it for every lead
    let hands: Hands = [
        CardSet::from_cards(&[B4]),
        CardSet::from_cards(&[B1, B2]),
        CardSet::from_cards(&[Y1]),
        CardSet::from_cards(&[Y2]),
    ];
    let play = |cards: &[thecrewsolver::card::Card]| Play {
        cards: CardSet::from_cards(cards),
        lead_suit: CardSet::from_raw(suit::BLUE),
    };
    let pg = PlayGenerator::new(&hands, 0);
    assert_eq!(
        collect_plays(pg, 26),
        vec![play(&[B4, B1, Y1, Y2]), play(&[B4, B2, Y1, Y2])]
    );
}
