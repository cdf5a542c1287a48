use poker::CryptoHash;
use poker::DeckError;
use poker::DeckStatus;
use poker::Game;
use poker::GameError;
use poker::GameStatus;
use poker::PokerStatus;

fn hash(seed: u64) -> CryptoHash {
    CryptoHash::from_words(seed, seed + 1, seed + 2, seed + 3)
}

fn deck_of(n: u64) -> Vec<CryptoHash> {
    let mut v = Vec::new();
    for i in 0..n {
        v.push(hash(i));
    }
    v
}

#[test]
fn new_game_is_initiating() {
    let g = Game::new(String::from("table1"), 7);
    assert_eq!(g.state(), GameStatus::Initiating);
    assert_eq!(g.name, "table1");
    assert_eq!(g.id, 7);
}

#[test]
fn start_twice_returns_ongoing_round() {
    let mut g = Game::new(String::from("t"), 1);
    assert!(g.start().is_ok());
    assert_eq!(g.state(), GameStatus::DeckAction(DeckStatus::Shuffling));
    assert_eq!(g.start(), Err(GameError::OngoingRound));
    assert_eq!(g.state(), GameStatus::DeckAction(DeckStatus::Shuffling));
}

#[test]
fn close_right_after_new_succeeds() {
    let mut g = Game::new(String::from("t"), 1);
    assert!(g.close().is_ok());
    assert_eq!(g.state(), GameStatus::Closed);
}

#[test]
fn close_during_round_is_rejected() {
    let mut g = Game::new(String::from("t"), 1);
    assert!(g.start().is_ok());
    assert_eq!(g.close(), Err(GameError::OngoingRound));
    assert_eq!(g.state(), GameStatus::DeckAction(DeckStatus::Shuffling));
}

#[test]
fn three_entrants_three_equal_stakes() {
    let mut g = Game::new(String::from("t"), 1);
    assert!(g.enter().is_ok());
    assert!(g.enter().is_ok());
    assert!(g.enter().is_ok());
    let stakes = g.poker_state().stakes();
    assert_eq!(stakes, vec![1000, 1000, 1000]);
    assert_eq!(g.deck_state().participant_count(), 3);
}

#[test]
fn closed_state_is_absorbing() {
    let mut g = Game::new(String::from("t"), 1);
    assert!(g.close().is_ok());
    assert_eq!(g.state(), GameStatus::Closed);
    assert!(g.start().is_err());
    assert_eq!(g.state(), GameStatus::Closed);
    assert!(g.enter().is_err());
    assert_eq!(g.state(), GameStatus::Closed);
    assert!(g.submit_shuffled(deck_of(52)).is_err());
    assert_eq!(g.state(), GameStatus::Closed);
    assert!(g.finish_reveal().is_err());
    assert_eq!(g.state(), GameStatus::Closed);
    assert!(g.submit_reveal_part(hash(0)).is_err());
    assert_eq!(g.state(), GameStatus::Closed);
    assert!(g.get_partial_shuffle().is_err());
    assert_eq!(g.close(), Err(GameError::OngoingRound));
    assert_eq!(g.state(), GameStatus::Closed);
}

#[test]
fn full_round_single_player_hands_off_to_betting() {
    let mut g = Game::new(String::from("t"), 1);
    assert!(g.enter().is_ok());
    assert!(g.start().is_ok());
    assert_eq!(g.state(), GameStatus::DeckAction(DeckStatus::Shuffling));
    let partial = g.get_partial_shuffle().unwrap();
    assert!(partial.is_empty());
    assert!(g.submit_shuffled(deck_of(52)).is_ok());
    assert_eq!(g.state(), GameStatus::DeckAction(DeckStatus::Revealing));
    assert!(g.submit_reveal_part(hash(99)).is_ok());
    assert_eq!(g.state(), GameStatus::DeckAction(DeckStatus::Revealing));
    assert!(g.finish_reveal().is_ok());
    assert_eq!(g.state(), GameStatus::PokerAction(PokerStatus::Betting));
    assert_eq!(
        g.submit_shuffled(deck_of(52)),
        Err(GameError::DeckError(DeckError::WrongStatus))
    );
    assert_eq!(g.state(), GameStatus::PokerAction(PokerStatus::Betting));
}

#[test]
fn status_mirrors_deck_until_every_player_acted() {
    let mut g = Game::new(String::from("t"), 1);
    assert!(g.enter().is_ok());
    assert!(g.enter().is_ok());
    assert!(g.start().is_ok());
    assert!(g.submit_shuffled(deck_of(52)).is_ok());
    assert_eq!(g.state(), GameStatus::DeckAction(DeckStatus::Shuffling));
    assert!(g.submit_shuffled(deck_of(52)).is_ok());
    assert_eq!(g.state(), GameStatus::DeckAction(DeckStatus::Revealing));
    assert!(g.finish_reveal().is_ok());
    assert_eq!(g.state(), GameStatus::DeckAction(DeckStatus::Revealing));
    assert!(g.finish_reveal().is_ok());
    assert_eq!(g.state(), GameStatus::PokerAction(PokerStatus::Betting));
}

#[test]
fn enter_after_start_is_rejected() {
    let mut g = Game::new(String::from("t"), 1);
    assert!(g.start().is_ok());
    assert_eq!(g.enter(), Err(GameError::DeckError(DeckError::WrongStatus)));
}

#[test]
fn table_full_after_one_entrant_per_card() {
    let mut g = Game::new(String::from("t"), 1);
    for _ in 0..52 {
        assert!(g.enter().is_ok());
    }
    assert_eq!(g.enter(), Err(GameError::DeckError(DeckError::TableFull)));
    assert_eq!(g.poker_state().stakes().len(), 52);
}

#[test]
fn wrong_card_count_is_rejected() {
    let mut g = Game::new(String::from("t"), 1);
    assert!(g.start().is_ok());
    assert_eq!(
        g.submit_shuffled(deck_of(3)),
        Err(GameError::DeckError(DeckError::WrongCardCount))
    );
    assert_eq!(g.state(), GameStatus::DeckAction(DeckStatus::Shuffling));
}

#[test]
fn activity_and_initiating_tests() {
    assert!(GameStatus::Initiating.is_active());
    assert!(GameStatus::Idle.is_active());
    assert!(GameStatus::DeckAction(DeckStatus::Shuffling).is_active());
    assert!(GameStatus::PokerAction(PokerStatus::Waiting).is_active());
    assert!(!GameStatus::Closed.is_active());
    assert!(GameStatus::DeckAction(DeckStatus::Initiating).is_initiating());
    assert!(!GameStatus::DeckAction(DeckStatus::Running).is_initiating());
    assert!(!GameStatus::Initiating.is_initiating());
}
