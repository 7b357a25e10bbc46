use turbo_hearts::game::event::GameEvent;
use turbo_hearts::seed::{deal_from, keeper_from, HashedSeed};
use turbo_hearts::{Card, Cards, PassDirection, Seat, Seed};

fn chosen() -> HashedSeed {
    HashedSeed::from(&Seed::Chosen {
        value: "chosen".to_string(),
    })
}

#[test]
fn test_deal_left() {
    let mut seed = chosen();
    assert_eq!(
        seed.deal(PassDirection::Left),
        GameEvent::Deal {
            north: "QJT7S KJ643H J97D AC".parse().unwrap(),
            east: "AK962S Q9H 82D QJ63C".parse().unwrap(),
            south: "53S A52H 54D T97542C".parse().unwrap(),
            west: "84S T87H AKQT63D K8C".parse().unwrap(),
            pass: PassDirection::Left
        }
    );
}

#[test]
fn test_deal_right() {
    let mut seed = chosen();
    assert_eq!(
        seed.deal(PassDirection::Right),
        GameEvent::Deal {
            north: "A3S KQT542H Q9642C".parse().unwrap(),
            east: "JT62S A976H AQ5D A8C".parse().unwrap(),
            south: "K987S JH KJ7643D J7C".parse().unwrap(),
            west: "Q54S 83H T982D KT53C".parse().unwrap(),
            pass: PassDirection::Right
        }
    );
}

#[test]
fn test_deal_across() {
    let mut seed = chosen();
    assert_eq!(
        seed.deal(PassDirection::Across),
        GameEvent::Deal {
            north: "KT9S 76H QJ75D Q743C".parse().unwrap(),
            east: "6532S Q952H K2D J86C".parse().unwrap(),
            south: "QJ8S K83H AT6D AKT9C".parse().unwrap(),
            west: "A74S AJT4H 9843D 52C".parse().unwrap(),
            pass: PassDirection::Across
        }
    );
}

#[test]
fn test_deal_keeper() {
    let mut seed = chosen();
    assert_eq!(
        seed.deal(PassDirection::Keeper),
        GameEvent::Deal {
            north: "3S A852H 96432D KQ3C".parse().unwrap(),
            east: "AKQJ742S KD AT864C".parse().unwrap(),
            south: "T98S K973H AQT7D 72C".parse().unwrap(),
            west: "65S QJT64H J85D J95C".parse().unwrap(),
            pass: PassDirection::Keeper
        }
    );
}

#[test]
fn test_keeper_pass() {
    let mut seed = chosen();
    assert_eq!(
        seed.keeper_pass("QJT7S KJ43H J97D AC".parse().unwrap()),
        [
            GameEvent::RecvPass {
                to: Seat::North,
                cards: "TS KH 9D".parse().unwrap()
            },
            GameEvent::RecvPass {
                to: Seat::East,
                cards: "J4H AC".parse().unwrap()
            },
            GameEvent::RecvPass {
                to: Seat::South,
                cards: "JS J7D".parse().unwrap()
            },
            GameEvent::RecvPass {
                to: Seat::West,
                cards: "Q7S 3H".parse().unwrap()
            }
        ]
    );
}

#[test]
fn deal_from_cuts_the_deck_in_order() {
    let deck = Cards::all().to_vec();
    let event = deal_from(&deck, PassDirection::Across);
    assert_eq!(
        event,
        GameEvent::Deal {
            north: Cards::spades(),
            east: Cards::hearts(),
            south: Cards::diamonds(),
            west: Cards::clubs(),
            pass: PassDirection::Across
        }
    );
}

#[test]
fn keeper_from_hands_out_three_each() {
    let passes: Vec<Card> = "AKQJT9876542S".parse::<Cards>().unwrap().to_vec();
    let events = keeper_from(&passes);
    assert_eq!(
        events[0],
        GameEvent::RecvPass { to: Seat::North, cards: "AKQS".parse().unwrap() }
    );
    assert_eq!(
        events[3],
        GameEvent::RecvPass { to: Seat::West, cards: "542S".parse().unwrap() }
    );
}

#[test]
fn deal_gives_every_card_once() {
    let mut seed = HashedSeed::from(&Seed::Chosen { value: "another".to_string() });
    for pass in [PassDirection::Left, PassDirection::Right, PassDirection::Across, PassDirection::Keeper] {
        match seed.deal(pass) {
            GameEvent::Deal { north, east, south, west, pass: p } => {
                assert_eq!(p, pass);
                for hand in [north, east, south, west] {
                    assert_eq!(hand.len(), 13);
                }
                assert_eq!(north.union(east).union(south).union(west), Cards::all());
            }
            other => panic!("not a deal: {:?}", other),
        }
    }
}

#[test]
fn a_chosen_seed_replays_the_same_deals() {
    let mut first = chosen();
    let mut second = chosen();
    for pass in [PassDirection::Left, PassDirection::Right, PassDirection::Across] {
        assert_eq!(first.deal(pass), second.deal(pass));
        assert_eq!(first.word_pos, second.word_pos);
    }
    let keeper: Cards = "QJT7S KJ43H J97D AC".parse().unwrap();
    assert_eq!(first.keeper_pass(keeper), second.keeper_pass(keeper));
}

#[test]
fn a_deal_depends_on_the_position_reached_alone() {
    let mut seed = chosen();
    seed.deal(PassDirection::Left);
    assert!(seed.word_pos > 0);
    let reached = seed.word_pos;
    let next = seed.deal(PassDirection::Right);
    let mut restarted = chosen();
    restarted.word_pos = reached;
    assert_eq!(restarted.deal(PassDirection::Right), next);
    let mut fresh = chosen();
    assert_ne!(fresh.deal(PassDirection::Right), next);
}

#[test]
fn different_seeds_key_the_generator_differently() {
    let other = HashedSeed::from(&Seed::Chosen { value: "another".to_string() });
    assert_ne!(chosen().key, other.key);
    assert_eq!(chosen().word_pos, 0);
    assert!(HashedSeed::new().key.is_none());
}
