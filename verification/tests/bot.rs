use turbo_hearts::bot::random::drawn_charges;
use turbo_hearts::bot::simulate::best_index;
use turbo_hearts::bot::{can_claim, can_leader_claim, losers, must_claim};
use turbo_hearts::game::charge::ChargeState;
use turbo_hearts::game::claim::ClaimState;
use turbo_hearts::game::done::DoneState;
use turbo_hearts::game::state::GameState;
use turbo_hearts::game::trick::Trick;
use turbo_hearts::game::won::WonState;
use turbo_hearts::{Cards, ChargingRules, GamePhase, Seat, Suit, Suits};

fn cards(s: &str) -> Cards {
    s.parse().unwrap()
}

#[test]
fn bot_test_losers() {
    fn case(hand: &str, remaining: &str, can_lead_charged: bool) -> i8 {
        let hand = cards(&format!("{}S", hand));
        let remaining = cards(&format!("{}S", remaining));
        let mut state = GameState::new();
        state.played = Cards::spades().difference(hand).difference(remaining);
        if !can_lead_charged {
            state.charges.charge(Seat::North, Cards::queen_spades());
        }
        losers(Suit::Spades, hand, &state)
    }
    assert_eq!(0, case("AKQ", "23", true));
    assert_eq!(0, case("AK", "234", true));
    assert_eq!(-1, case("AK9", "23", true));
    assert_eq!(-1, case("A9", "23", true));
    assert_eq!(-1, case("A9", "234", true));
    assert_eq!(0, case("A92", "34", true));
    assert_eq!(-1, case("A92", "3", true));
    assert_eq!(0, case("A", "9", true));
    assert_eq!(-1, case("A9", "J", true));
    assert_eq!(0, case("A9", "QJ", true));
    assert_eq!(0, case("A9", "KQJ", true));
    assert_eq!(1, case("A93", "KQJ", true));
    assert_eq!(2, case("A83", "KQJ", true));
    assert_eq!(0, case("A93", "QJ", true));
    assert_eq!(0, case("J8", "954", true));
    assert_eq!(1, case("J8", "T954", true));
    assert_eq!(3, case("K93", "AQJ", true));
    assert_eq!(2, case("K3", "AQJ", true));
    assert_eq!(1, case("8", "9", true));

    assert_eq!(1, case("Q8", "T", false));
    assert_eq!(0, case("Q8", "9", false));
    assert_eq!(0, case("Q8", "4", false));
    assert_eq!(0, case("Q9", "4", false));
    assert_eq!(0, case("Q93", "4", false));
    assert_eq!(-1, case("Q95", "4", false));
    assert_eq!(0, case("Q", "T", false));
    assert_eq!(1, case("Q", "K", false));
}

#[test]
fn test_can_claim() {
    let state = GameState {
        rules: ChargingRules::Classic,
        phase: GamePhase::PassLeft,
        done: DoneState::new(),
        charge_count: 0,
        charges: ChargeState::new(),
        next_actor: Some(Seat::East),
        played: Cards::none(),
        claims: ClaimState::new(),
        won: WonState::new(),
        led_suits: Suits::none(),
        current_trick: Trick::new(),
    };
    assert!(can_claim(Seat::North, cards("AK9S AK9H AK9D AK9C"), &state));
}

#[test]
fn it_works() {
    assert_eq!(2 + 2, 4);
}

#[test]
fn must_claim_needs_every_card_high() {
    let played = Cards::none();
    assert!(must_claim(cards("AKS"), cards("QJT98765432S")));
    assert!(!must_claim(cards("AQS"), played));
    assert!(must_claim(Cards::none(), played));
    assert!(must_claim(cards("AH"), played));
}

#[test]
fn leader_claims_with_all_winners() {
    let mut state = GameState::new();
    state.played = Cards::all().difference(cards("AKS AH 32C QJH"));
    assert!(can_leader_claim(cards("AKS AH"), &state));
    assert!(!can_leader_claim(cards("AKS 2C"), &state));
    assert!(can_leader_claim(cards("AKS 3C"), &state));
}

#[test]
fn cannot_claim_without_a_turn() {
    let state = GameState::new();
    assert!(!can_claim(Seat::North, cards("AS"), &state));
}

fn open_deal(held: &str, sizes: [usize; 4]) -> turbo_hearts::bot::simulate::Deal {
    let unassigned: Cards = held.parse().unwrap();
    turbo_hearts::bot::simulate::Deal {
        hands: [Cards::none(); 4],
        sizes,
        void: turbo_hearts::bot::void::VoidState::new(),
        cards: unassigned.to_vec(),
        unassigned,
    }
}

#[test]
fn a_balanced_deal_is_handed_out_to_the_sizes() {
    let mut deal = open_deal("AKQJH T9S", [1, 2, 0, 3]);
    assert!(deal.assign());
    assert_eq!(deal.unassigned, Cards::none());
    let sizes: Vec<usize> = deal.hands.iter().map(|h| h.len()).collect();
    assert_eq!(sizes, vec![1, 2, 0, 3]);
    let all = deal.hands.iter().fold(Cards::none(), |a, h| a.union(*h));
    assert_eq!(all, "AKQJH T9S".parse::<Cards>().unwrap());
}

#[test]
fn an_unbalanced_deal_is_refused_and_left_alone() {
    let mut deal = open_deal("AKQJH", [1, 1, 1, 0]);
    assert!(!deal.assign());
    assert_eq!(deal.unassigned, "AKQJH".parse::<Cards>().unwrap());
    assert_eq!(deal.cards.len(), 4);
    assert!(deal.hands.iter().all(|h| *h == Cards::none()));
}

#[test]
fn each_card_won_once_adds_to_its_winner_alone() {
    let mut won = WonState::new();
    won.win(Seat::North, "AKQH 2C".parse().unwrap());
    won.win(Seat::East, "QS JH TC".parse().unwrap());
    won.win(Seat::North, "T98765432H JD".parse().unwrap());
    assert_eq!(won.hearts(Seat::North), 12);
    assert_eq!(won.hearts(Seat::East), 1);
    assert_eq!(won.hearts(Seat::South), 0);
    assert!(won.queen(Seat::East) && !won.queen(Seat::North));
    assert!(won.jack(Seat::North) && !won.jack(Seat::East));
    assert!(won.ten(Seat::East) && !won.ten(Seat::West));
}

#[test]
fn the_best_total_is_the_first_largest() {
    assert_eq!(best_index(&vec![3, 7, 7, -2]), 1);
    assert_eq!(best_index(&vec![5]), 0);
    assert_eq!(best_index(&vec![-1, -5]), 0);
    assert_eq!(best_index(&vec![-9, -5, 0, 12]), 3);
}


#[test]
fn drawn_charges_keep_the_cards_whose_coin_came_up() {
    let open: Cards = "QS AH JD TC".parse().unwrap();
    let order = open.to_vec();
    let kept = drawn_charges(open, &vec![true, false, true, false]);
    assert_eq!(kept, Cards::none().with(order[0]).with(order[2]));
    assert_eq!(drawn_charges(open, &vec![false, false, false, false]), Cards::none());
    assert_eq!(drawn_charges(open, &vec![true, true, true, true]), open);
}

#[test]
fn passing_and_charging_share_a_flag_until_reset() {
    let mut done = DoneState::new();
    done.send_pass(Seat::North);
    done.recv_pass(Seat::East);
    assert!(done.sent_pass(Seat::North) && done.charged(Seat::North));
    assert!(!done.sent_pass(Seat::East) && !done.charged(Seat::East));
    done.reset();
    assert!(!done.charged(Seat::North) && !done.all_recv_pass());
    done.charge(Seat::West);
    assert!(done.sent_pass(Seat::West) && done.charged(Seat::West));
    assert!(!done.all_charge());
}
