use thecrewsolver::card::Card::{
    B1, B2, B3, B4, B5, B6, B7, B8, B9, G1, G3, G4, G5, G7, G9, M1, M4, M5, M9, R1, R2, R3, R4,
    Y1, Y2, Y3, Y4, Y5, Y9,
};
use thecrewsolver::card::CardSet;
use thecrewsolver::suit;

#[test]
fn test_constants() {
    assert_eq!(CardSet::EMPTY, 0);
}

#[test]
fn test_from_card() {
    assert_eq!(CardSet::from_card(B1).0, 0b1);
    assert_eq!(CardSet::from_card(B2).0, 0b10);
    assert_eq!(CardSet::from_card(B3).0, 0b100);
    assert_eq!(CardSet::from_card(B4).0, 0b1000);
}

#[test]
fn test_from_cards() {
    assert_eq!(CardSet::from_cards(&[B1, B3, B4]).0, 0b1101);
}

#[test]
fn test_from_bit_index() {
    assert_eq!(CardSet::from_bit_index(5).0, 0b100000);
}

#[test]
fn test_from_raw() {
    assert_eq!(CardSet::from_raw(0b10110).0, 0b10110);
}

#[test]
fn test_add() {
    assert_eq!(CardSet::from_card(B1).add(CardSet::from_card(B3)).0, 0b101);
}

#[test]
fn test_overlaps_with() {
    let base = CardSet::from_cards(&[B1, B3, B5]);
    assert!(base.overlaps_with(CardSet::from_cards(&[B1, B3, B5])));
    assert!(base.overlaps_with(CardSet::from_cards(&[B5, B6, B7])));
    assert!(!base.overlaps_with(CardSet::from_cards(&[Y1, Y3, Y5])));
}

#[test]
fn test_contains() {
    assert!(CardSet::from_cards(&[B1, B3, B5]).contains(B1));
    assert!(!CardSet::from_cards(&[B1, B3, B5]).contains(B2));
    assert!(!CardSet::from_cards(&[B1, B3, B5]).contains(Y3));
}

#[test]
fn test_get_raw() {
    assert_eq!(CardSet::from_cards(&[B1, B3, B4]).get_raw(), 0b1101);
}

#[test]
fn test_raw_reflexive() {
    let cards = CardSet::from_cards(&[B1, B3, B4]);
    assert_eq!(CardSet::from_raw(cards.get_raw()), cards);
}

#[test]
fn test_get_suit() {
    assert_eq!(CardSet::from_card(B1).get_suit(), CardSet::from_raw(suit::BLUE));
    assert_eq!(CardSet::from_card(B4).get_suit(), CardSet::from_raw(suit::BLUE));
    assert_eq!(CardSet::from_card(B9).get_suit(), CardSet::from_raw(suit::BLUE));
    assert_eq!(CardSet::from_card(Y1).get_suit(), CardSet::from_raw(suit::YELLOW));
    assert_eq!(CardSet::from_card(Y4).get_suit(), CardSet::from_raw(suit::YELLOW));
    assert_eq!(CardSet::from_card(Y9).get_suit(), CardSet::from_raw(suit::YELLOW));
    assert_eq!(CardSet::from_card(M1).get_suit(), CardSet::from_raw(suit::MAGENTA));
    assert_eq!(CardSet::from_card(M4).get_suit(), CardSet::from_raw(suit::MAGENTA));
    assert_eq!(CardSet::from_card(M9).get_suit(), CardSet::from_raw(suit::MAGENTA));
    assert_eq!(CardSet::from_card(G1).get_suit(), CardSet::from_raw(suit::GREEN));
    assert_eq!(CardSet::from_card(G4).get_suit(), CardSet::from_raw(suit::GREEN));
    assert_eq!(CardSet::from_card(G9).get_suit(), CardSet::from_raw(suit::GREEN));
    assert_eq!(CardSet::from_card(R1).get_suit(), CardSet::from_raw(suit::ROCKETS));
    assert_eq!(CardSet::from_card(R2).get_suit(), CardSet::from_raw(suit::ROCKETS));
    assert_eq!(CardSet::from_card(R3).get_suit(), CardSet::from_raw(suit::ROCKETS));
    assert_eq!(CardSet::from_card(R4).get_suit(), CardSet::from_raw(suit::ROCKETS));
}

#[test]
fn test_highest_card() {
    assert_eq!(CardSet::from_cards(&[B1]).highest_card(), CardSet::from_card(B1));
    assert_eq!(CardSet::from_cards(&[R4]).highest_card(), CardSet::from_card(R4));
    assert_eq!(CardSet::from_cards(&[B3]).highest_card(), CardSet::from_card(B3));
    assert_eq!(
        CardSet::from_cards(&[B1, B3, B5]).highest_card(),
        CardSet::from_card(B5)
    );
    assert_eq!(
        CardSet::from_cards(&[G1, G3, G5]).highest_card(),
        CardSet::from_card(G5)
    );
    assert_eq!(
        CardSet::from_cards(&[B8, B9, R1]).highest_card(),
        CardSet::from_card(R1)
    );
    assert_eq!(
        CardSet::from_cards(&[R1, R2, R3, R4]).highest_card(),
        CardSet::from_card(R4)
    );
}

#[test]
fn test_is_covered_by() {
    assert!(CardSet::from_cards(&[B1]).is_covered_by(CardSet::from_cards(&[B1])));
    assert!(CardSet::from_cards(&[B1]).is_covered_by(CardSet::from_cards(&[B1, Y2])));
    assert!(CardSet::from_cards(&[B1, B3]).is_covered_by(CardSet::from_cards(&[B1, B2, B3])));
    assert!(!CardSet::from_cards(&[B1, B3]).is_covered_by(CardSet::from_cards(&[B2, B3, B4])));
    assert!(!CardSet::from_cards(&[B1, B3]).is_covered_by(CardSet::from_cards(&[G1, G3])));
}

#[test]
fn test_num_set() {
    assert_eq!(CardSet::from_raw(CardSet::EMPTY).num_set(), 0);
    assert_eq!(CardSet::from_cards(&[]).num_set(), 0);
    assert_eq!(CardSet::from_cards(&[B1]).num_set(), 1);
    assert_eq!(CardSet::from_cards(&[B1, G7]).num_set(), 2);
    assert_eq!(CardSet::from_cards(&[B1, G7, Y3, R2, M1]).num_set(), 5);
}

#[test]
fn test_bitwise_ops() {
    let x = CardSet::from_cards(&[B1, B3, B5]);
    let y = CardSet::from_cards(&[B5, B7, B9]);
    assert_eq!(x.intersect(y), CardSet::from_cards(&[B5]));
    assert_eq!(x.add(y), CardSet::from_cards(&[B1, B3, B5, B7, B9]));

    assert!(!x.contains(B2));
    assert!(!x.contains(Y1));
    assert!(!x.contains(G3));
    assert!(!x.contains(M5));
    assert!(!x.contains(R4));
}
