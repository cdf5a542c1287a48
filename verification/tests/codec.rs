use poker::error_from_bytes;
use poker::error_to_bytes;
use poker::game_from_bytes;
use poker::game_to_bytes;
use poker::status_from_bytes;
use poker::status_to_bytes;
use poker::CryptoHash;
use poker::DeckError;
use poker::DeckStatus;
use poker::Game;
use poker::GameError;
use poker::GameStatus;
use poker::PokerStatus;

fn hash(seed: u64) -> CryptoHash {
    CryptoHash::from_words(seed, seed + 1, seed + 2, seed + 3)
}

fn deck_of(n: u64) -> Vec<CryptoHash> {
    let mut v = Vec::new();
    for i in 0..n {
        v.push(hash(i));
    }
    v
}

#[test]
fn status_round_trips() {
    let statuses = vec![
        GameStatus::Initiating,
        GameStatus::Idle,
        GameStatus::DeckAction(DeckStatus::Initiating),
        GameStatus::DeckAction(DeckStatus::Shuffling),
        GameStatus::DeckAction(DeckStatus::Revealing),
        GameStatus::DeckAction(DeckStatus::Running),
        GameStatus::DeckAction(DeckStatus::Closed),
        GameStatus::PokerAction(PokerStatus::Waiting),
        GameStatus::PokerAction(PokerStatus::Betting),
        GameStatus::Closed,
    ];
    for s in statuses {
        let bytes = status_to_bytes(&s);
        assert_eq!(status_from_bytes(&bytes), Some(s));
    }
}

#[test]
fn status_exact_bytes() {
    assert_eq!(status_to_bytes(&GameStatus::Initiating), vec![0]);
    assert_eq!(
        status_to_bytes(&GameStatus::DeckAction(DeckStatus::Running)),
        vec![2, 3]
    );
    assert_eq!(
        status_to_bytes(&GameStatus::PokerAction(PokerStatus::Betting)),
        vec![3, 1]
    );
}

#[test]
fn status_rejects_garbage() {
    assert_eq!(status_from_bytes(&vec![9]), None);
    assert_eq!(status_from_bytes(&vec![]), None);
    assert_eq!(status_from_bytes(&vec![2]), None);
    assert_eq!(status_from_bytes(&vec![0, 0]), None);
    assert_eq!(status_from_bytes(&vec![2, 7]), None);
}

#[test]
fn error_round_trips_and_exact_bytes() {
    let errors = vec![
        GameError::DeckError(DeckError::WrongStatus),
        GameError::DeckError(DeckError::TableFull),
        GameError::DeckError(DeckError::WrongCardCount),
        GameError::RoomIdNotFound,
        GameError::OngoingRound,
    ];
    for e in errors {
        let bytes = error_to_bytes(&e);
        assert_eq!(error_from_bytes(&bytes), Some(e));
    }
    assert_eq!(
        error_to_bytes(&GameError::DeckError(DeckError::TableFull)),
        vec![0, 1]
    );
    assert_eq!(error_to_bytes(&GameError::OngoingRound), vec![2]);
    assert_eq!(error_from_bytes(&vec![3]), None);
    assert_eq!(error_from_bytes(&vec![0]), None);
    assert_eq!(error_from_bytes(&vec![2, 0]), None);
}

#[test]
fn fresh_game_exact_bytes() {
    let g = Game::new(String::new(), 7);
    let mut expected: Vec<u8> = Vec::new();
    expected.extend_from_slice(&[0; 8]); // empty name
    expected.extend_from_slice(&[7, 0, 0, 0, 0, 0, 0, 0]); // room id
    expected.push(0); // status: initial phase
    expected.extend_from_slice(&[52, 0, 0, 0]); // card count
    expected.push(0); // deck status: initial phase
    expected.extend_from_slice(&[0; 4]); // participants
    expected.extend_from_slice(&[0; 4]); // shuffles done
    expected.extend_from_slice(&[0; 4]); // reveals done
    expected.extend_from_slice(&[0; 8]); // no cards yet
    expected.extend_from_slice(&[0; 8]); // nothing revealed
    expected.push(0); // betting status: waiting
    expected.extend_from_slice(&[0; 8]); // no players
    assert_eq!(game_to_bytes(&g), expected);
}

#[test]
fn game_round_trip_mid_round() {
    let mut g = Game::new(String::from("table one"), 42);
    assert!(g.enter().is_ok());
    assert!(g.enter().is_ok());
    assert!(g.start().is_ok());
    assert!(g.submit_shuffled(deck_of(52)).is_ok());
    let bytes = game_to_bytes(&g);
    let g2 = game_from_bytes(&bytes).expect("round trip");
    assert_eq!(g2.name, g.name);
    assert_eq!(g2.id, g.id);
    assert_eq!(g2.state(), g.state());
    assert_eq!(g2.poker_state().stakes(), g.poker_state().stakes());
    assert_eq!(
        g2.deck_state().participant_count(),
        g.deck_state().participant_count()
    );
    assert_eq!(game_to_bytes(&g2), bytes);
}

#[test]
fn game_round_trip_keeps_behaviour() {
    let mut g = Game::new(String::from("t"), 1);
    assert!(g.enter().is_ok());
    assert!(g.start().is_ok());
    assert!(g.submit_shuffled(deck_of(52)).is_ok());
    let mut g2 = game_from_bytes(&game_to_bytes(&g)).expect("round trip");
    assert!(g2.finish_reveal().is_ok());
    assert_eq!(g2.state(), GameStatus::PokerAction(PokerStatus::Betting));
}

#[test]
fn game_from_bytes_rejects_garbage() {
    assert_eq!(game_from_bytes(&vec![]).map(|g| g.id), None);
    assert_eq!(game_from_bytes(&vec![1, 2, 3]).map(|g| g.id), None);
    let g = Game::new(String::from("t"), 1);
    let mut bytes = game_to_bytes(&g);
    bytes.push(0); // trailing byte
    assert!(game_from_bytes(&bytes).is_none());
    let mut truncated = game_to_bytes(&g);
    truncated.pop();
    assert!(game_from_bytes(&truncated).is_none());
}

#[test]
fn game_from_bytes_rejects_inconsistent_state() {
    // A closed game whose bytes are edited so the aggregate status says
    // "initiating" while the deck is closed must be rejected.
    let mut g = Game::new(String::new(), 1);
    assert!(g.close().is_ok());
    let mut bytes = game_to_bytes(&g);
    // The aggregate status tag sits right after the name and room id.
    assert_eq!(bytes[16], 4);
    bytes[16] = 0;
    assert!(game_from_bytes(&bytes).is_none());
}
