use std::str::FromStr;
use turbo_hearts::{Card, Cards, Rank, Suit};

fn cards(s: &str) -> Cards {
    s.parse().unwrap()
}

#[test]
fn test_display() {
    assert_eq!(
        Card::NineSpades
            .or(Card::QueenSpades)
            .with(Card::JackDiamonds)
            .to_string(),
        "Q9S JD"
    );
}

#[test]
fn test_max() {
    assert_eq!(Card::TwoClubs.or(Card::NineClubs).max(), Card::NineClubs);
    assert_eq!(Card::FourHearts.or(Card::SevenDiamonds).max(), Card::FourHearts);
    assert_eq!(Card::AceSpades.or(Card::FiveSpades).max(), Card::AceSpades);
    assert_eq!(Cards::from(Card::FiveHearts).max(), Card::FiveHearts);
}

#[test]
fn test_iter() {
    assert_eq!(
        Card::QueenSpades
            .or(Card::AceHearts)
            .with(Card::TenClubs)
            .with(Card::JackDiamonds)
            .to_vec(),
        vec![
            Card::QueenSpades,
            Card::AceHearts,
            Card::JackDiamonds,
            Card::TenClubs
        ]
    );
}

#[test]
fn test_parse() {
    assert_eq!(Cards::from(Card::AceHearts), "AH".parse().unwrap())
}

#[test]
fn test_above() {
    assert_eq!(
        Cards::from_str("AQJH").unwrap(),
        Cards::from_str("5S AQJT9H 3C")
            .unwrap()
            .above(Card::TenHearts)
    )
}

#[test]
fn test_below() {
    assert_eq!(
        Cards::from_str("97H").unwrap(),
        Cards::from_str("5S AQJT97H 3C")
            .unwrap()
            .below(Card::TenHearts)
    )
}

#[test]
fn test_card_display() {
    assert_eq!(Card::NineSpades.to_string(), "9S");
    assert_eq!(Card::ThreeDiamonds.to_string(), "3D");
    assert_eq!(Card::JackClubs.to_string(), "JC");
    assert_eq!(Card::AceHearts.to_string(), "AH");
}

#[test]
fn test_card_suit() {
    assert_eq!(Card::TwoClubs.suit().cards(), Cards::clubs());
    assert_eq!(Card::AceClubs.suit().cards(), Cards::clubs());
    assert_eq!(Card::TwoDiamonds.suit().cards(), Cards::diamonds());
    assert_eq!(Card::AceDiamonds.suit().cards(), Cards::diamonds());
    assert_eq!(Card::TwoHearts.suit().cards(), Cards::hearts());
    assert_eq!(Card::AceHearts.suit().cards(), Cards::hearts());
    assert_eq!(Card::TwoSpades.suit().cards(), Cards::spades());
    assert_eq!(Card::AceSpades.suit().cards(), Cards::spades());
}

#[test]
fn test_cards_display() {
    assert_eq!(
        Card::NineSpades
            .or(Card::QueenSpades)
            .with(Card::JackDiamonds)
            .to_string(),
        "Q9S JD"
    );
}

#[test]
fn test_cards_max() {
    assert_eq!(Card::TwoClubs.or(Card::NineClubs).max(), Card::NineClubs);
    assert_eq!(Card::FourHearts.or(Card::SevenDiamonds).max(), Card::FourHearts);
    assert_eq!(Card::AceSpades.or(Card::FiveSpades).max(), Card::AceSpades);
    assert_eq!(Cards::from(Card::FiveHearts).max(), Card::FiveHearts);
}

#[test]
fn test_cards_iter() {
    let mut iter = Card::QueenSpades
        .or(Card::AceHearts)
        .with(Card::TenClubs)
        .with(Card::JackDiamonds)
        .iter();
    assert_eq!(iter.size_hint(), (4, Some(4)));
    let mut cards = Vec::new();
    while let Some(card) = iter.next() {
        cards.push(card);
    }
    assert_eq!(
        cards,
        vec![
            Card::QueenSpades,
            Card::AceHearts,
            Card::JackDiamonds,
            Card::TenClubs
        ]
    );
    assert_eq!(iter.size_hint(), (0, Some(0)));
}

#[test]
fn test_cards_parse() {
    assert_eq!(Cards::from(Card::AceHearts), cards("AH"))
}

#[test]
fn cards_text_round_trip() {
    let hand = cards("AK9S QJ2H T3D 8C");
    assert_eq!(hand.to_string(), "AK9S QJ2H T3D 8C");
    assert_eq!(cards(&hand.to_string()), hand);
    assert_eq!(Cards::none().to_string(), "");
    assert_eq!(cards("").len(), 0);
}

#[test]
fn cards_parse_defaults_to_clubs_and_skips_other_characters() {
    assert_eq!(cards("A2"), Card::AceClubs.or(Card::TwoClubs));
    assert_eq!(cards("x9?H"), Cards::from(Card::NineHearts));
}

#[test]
fn cards_len_min_empty() {
    let hand = cards("AK9S QJ2H");
    assert_eq!(hand.len(), 6);
    assert_eq!(hand.min(), Card::TwoHearts);
    assert!(!hand.is_empty());
    assert!(Cards::none().is_empty());
    assert_eq!(Cards::all().len(), 52);
    assert_eq!(Cards::hearts().len(), 13);
    assert_eq!(Cards::points().len(), 15);
    assert_eq!(Cards::chargeable().len(), 4);
}

#[test]
fn cards_contains() {
    let hand = cards("AK9S QJ2H");
    assert!(hand.contains(Card::KingSpades));
    assert!(!hand.contains(Card::KingHearts));
    assert!(hand.contains_any(cards("KH QH")));
    assert!(!hand.contains_any(cards("KH 3C")));
    assert!(hand.contains_all(cards("AS 2H")));
    assert!(!hand.contains_all(cards("AS 3H")));
}

#[test]
fn cards_set_operations() {
    let a = cards("AK9S QJ2H");
    let b = cards("9S 2H 5D");
    assert_eq!(a.union(b), cards("AK9S QJ2H 5D"));
    assert_eq!(a.intersect(b), cards("9S 2H"));
    assert_eq!(a.difference(b), cards("AKS QJH"));
    assert_eq!(a.without(Card::AceSpades), cards("K9S QJ2H"));
    assert_eq!(a.lower(Card::QueenHearts), cards("J2H"));
    assert!(a.is_valid());
    assert!(!Cards { bits: 1 << 13 }.is_valid());
}

#[test]
fn cards_nth_counts_from_the_top() {
    let hand = cards("AK9S 2H");
    assert_eq!(hand.nth(0), Card::AceSpades);
    assert_eq!(hand.nth(2), Card::NineSpades);
    assert_eq!(hand.nth(3), Card::TwoHearts);
}

#[test]
fn cards_distinct_plays() {
    // The queen and jack of spades play alike, as do the seven and six once the eight is gone;
    // the nine plays like nothing else.
    let played = cards("8S");
    assert_eq!(cards("QJ976S").distinct_plays(played), cards("Q97S"));
    assert_eq!(cards("AKS").distinct_plays(Cards::none()), cards("AS"));
    assert_eq!(cards("AQS").distinct_plays(Cards::none()), cards("AQS"));
    assert_eq!(cards("AQS").distinct_plays(cards("KS")), cards("AS"));
}

#[test]
fn card_parts() {
    assert_eq!(Card::new(Rank::Queen, Suit::Spades), Card::QueenSpades);
    assert_eq!(Card::QueenSpades.rank(), Rank::Queen);
    assert_eq!(Card::QueenSpades.with_suit(Suit::Hearts), Card::QueenHearts);
    assert_eq!(Card::QueenSpades.with_rank(Rank::Two), Card::TwoSpades);
    assert_eq!(Card::from_str("TD"), Card::TenDiamonds);
    assert!(Card::TwoSpades.gt(Card::AceHearts));
    assert_eq!(Rank::Ten.char(), 'T');
    assert_eq!(Suit::Diamonds.char(), 'D');
    assert_eq!(Suit::try_from('X'), Err('X'));
}

#[test]
fn text_reads_back() {
    for text in ["Q9S JD", "AKQJT98765432S 2C", "", "T8H 9D A954C"] {
        let cards: Cards = text.parse().unwrap();
        assert_eq!(cards.to_string(), text);
        assert_eq!(cards.to_string().parse::<Cards>().unwrap(), cards);
    }
    let all = Cards::all();
    assert_eq!(all.to_string().parse::<Cards>().unwrap(), all);
}

#[test]
fn union_and_intersection_lengths_add_up() {
    let a: Cards = "AKS 2H".parse().unwrap();
    let b: Cards = "KS 3H QD".parse().unwrap();
    assert_eq!(a.union(b).len() + a.intersect(b).len(), a.len() + b.len());
    assert_eq!(a.union(b).len(), 5);
    assert_eq!(a.intersect(b).len(), 1);
    assert_eq!(a.to_vec().len(), a.len());
    assert_eq!(Cards::all().len(), 52);
    assert!(Cards::none().is_empty() && Cards::none().len() == 0);
    assert!(!a.is_empty());
}
