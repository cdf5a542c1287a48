//! The round-lifecycle orchestrator. A [`Game`] owns one deck protocol and
//! one betting protocol instance, validates every mutating call against the
//! current [`GameStatus`], forwards shuffle messages to the deck, and
//! re-derives the aggregate status from the deck's reported substatus.

use vstd::prelude::*;

use crate::deck::Deck;
use crate::deck::DeckError;
use crate::deck::DeckModel;
use crate::deck::DeckStatus;
use crate::poker::Poker;
use crate::poker::PokerModel;
use crate::poker::PokerStatus;
use crate::types::CryptoHash;
use crate::types::RoomId;

verus! {

/// Number of committed cards in a fresh deck.
pub const DECK_SIZE: u32 = 52;

/// Placeholder starting stake registered for every entrant.
pub const STARTING_STAKE: u64 = 1000;

/// The orchestrator's error type. Deck-protocol failures are wrapped
/// losslessly; `OngoingRound` is the phase guard for `start`/`close`;
/// `RoomIdNotFound` is reserved for a room-registry layer above this crate
/// and is produced by no operation here.
#[derive(Clone, Copy, PartialEq, Eq, Structural, Debug)]
pub enum GameError {
    DeckError(DeckError),
    RoomIdNotFound,
    OngoingRound,
}

impl From<DeckError> for GameError {
    fn from(deck_error: DeckError) -> (r: GameError) {
        GameError::DeckError(deck_error)
    }
}

impl vstd::std_specs::convert::FromSpecImpl<DeckError> for GameError {
    open spec fn obeys_from_spec() -> bool {
        true
    }

    open spec fn from_spec(deck_error: DeckError) -> GameError {
        GameError::DeckError(deck_error)
    }
}

/// Aggregate phase of a game: which sub-protocol currently holds control,
/// or that the round has not started / the game is closed.
#[derive(Clone, Copy, PartialEq, Eq, Structural, Debug)]
pub enum GameStatus {
    /// `start` has not been called yet; players may enter.
    Initiating,
    /// The previous round finished; entering and starting are allowed.
    Idle,
    /// The shuffle/reveal protocol holds control.
    DeckAction(DeckStatus),
    /// The betting protocol holds control.
    PokerAction(PokerStatus),
    /// Terminal: the game accepts no further mutation.
    Closed,
}

impl GameStatus {
    /// True for every phase except `Closed`.
    pub fn is_active(&self) -> (r: bool)
        ensures
            r <==> !(*self is Closed),
    {
        *self != GameStatus::Closed
    }

    /// True exactly when the deck protocol holds control in its initial
    /// substatus, that is, the shuffle has not yet begun for this round.
    pub fn is_initiating(&self) -> (r: bool)
        ensures
            r <==> *self == GameStatus::DeckAction(DeckStatus::Initiating),
    {
        *self == GameStatus::DeckAction(DeckStatus::Initiating)
    }
}

/// Mathematical model of a [`Game`].
#[verifier::ext_equal]
pub struct GameModel {
    pub name: Seq<char>,
    pub id: RoomId,
    pub status: GameStatus,
    pub deck: DeckModel,
    pub poker: PokerModel,
}

impl GameModel {
    /// The orchestrator's invariant: the aggregate status mirrors the deck
    /// protocol's reported substatus (never stale, never already "ready"
    /// while the deck holds control), the betting table holds one
    /// participant per deck entrant, and the owned deck is consistent.
    pub open spec fn wf(self) -> bool {
        &&& self.deck.wf()
        &&& self.poker.players.len() == self.deck.participants
        &&& match self.status {
            GameStatus::Initiating => self.deck.status is Initiating,
            GameStatus::Idle => self.deck.status is Initiating,
            GameStatus::DeckAction(s) => {
                &&& s == self.deck.status
                &&& (s is Shuffling || s is Revealing)
            },
            GameStatus::PokerAction(p) => {
                &&& p == self.poker.status
                &&& self.deck.status is Running
            },
            GameStatus::Closed => self.deck.status is Closed,
        }
    }

    /// `start` is accepted exactly in these phases.
    pub open spec fn start_allowed(self) -> bool {
        self.status is Initiating || self.status is Idle
    }

    /// `close` is accepted exactly in these phases.
    pub open spec fn close_allowed(self) -> bool {
        self.status is Initiating || self.status is Idle
    }

    /// `enter` is accepted exactly when the deck still seats entrants.
    pub open spec fn enter_allowed(self) -> bool {
        self.deck.accepts_entry()
    }

    /// Status reconciliation after a successful deck-forwarding call: if the
    /// deck does not report itself ready, the aggregate status mirrors the
    /// deck's substatus; otherwise authority passes to the betting protocol,
    /// which advances to its next decision point.
    pub open spec fn reconciled(self) -> GameModel {
        if !(self.deck.status is Running) {
            GameModel { status: GameStatus::DeckAction(self.deck.status), ..self }
        } else {
            GameModel {
                status: GameStatus::PokerAction(PokerStatus::Betting),
                poker: PokerModel { status: PokerStatus::Betting, ..self.poker },
                ..self
            }
        }
    }
}

/// The orchestrator for one room: name, immutable room id, the aggregate
/// status, and the exclusively owned sub-protocol instances.
pub struct Game {
    pub name: String,
    pub id: RoomId,
    pub(crate) status: GameStatus,
    pub(crate) deck: Deck,
    pub(crate) poker: Poker,
}

impl View for Game {
    type V = GameModel;

    closed spec fn view(&self) -> GameModel {
        GameModel {
            name: self.name@,
            id: self.id,
            status: self.status,
            deck: self.deck@,
            poker: self.poker@,
        }
    }
}

impl Game {
    /// A fresh game in `Initiating`, with an unshuffled standard deck and an
    /// empty betting table.
    pub fn new(name: String, id: RoomId) -> (r: Game)
        ensures
            r@ == (GameModel {
                name: name@,
                id,
                status: GameStatus::Initiating,
                deck: DeckModel {
                    card_count: DECK_SIZE,
                    status: DeckStatus::Initiating,
                    participants: 0,
                    shuffles_done: 0,
                    reveals_done: 0,
                    cards: Seq::<CryptoHash>::empty(),
                    revealed: Seq::<CryptoHash>::empty(),
                },
                poker: PokerModel { status: PokerStatus::Waiting, players: Seq::<u64>::empty() },
            }),
            r@.wf(),
    {
        Game {
            name,
            id,
            status: GameStatus::Initiating,
            deck: Deck::new(DECK_SIZE),
            poker: Poker::new(),
        }
    }

    /// Seats one participant: forwards to the deck's entry operation and, on
    /// success, registers a betting participant with the fixed starting
    /// stake. Fails with the deck's own error when the deck rejects entry.
    pub fn enter(&mut self) -> (r: Result<(), GameError>)
        requires
            old(self)@.wf(),
        ensures
            final(self)@.wf(),
            r is Ok <==> old(self)@.enter_allowed(),
            r is Ok ==> final(self)@ == (GameModel {
                deck: DeckModel {
                    participants: (old(self)@.deck.participants + 1) as u32,
                    ..old(self)@.deck
                },
                poker: PokerModel {
                    players: old(self)@.poker.players.push(STARTING_STAKE),
                    ..old(self)@.poker
                },
                ..old(self)@
            }),
            !old(self)@.enter_allowed() ==> {
                &&& final(self)@ == old(self)@
                &&& r == Err::<(), GameError>(
                    GameError::DeckError(
                        if old(self)@.deck.status is Initiating {
                            DeckError::TableFull
                        } else {
                            DeckError::WrongStatus
                        },
                    ),
                )
            },
    {
        let res = self.deck.enter();
        match res {
            Ok(()) => {
                self.poker.new_player(STARTING_STAKE);
                Ok(())
            },
            Err(e) => Err(GameError::from(e)),
        }
    }

    /// Begins a round: accepted exactly in `Initiating` or `Idle`, where it
    /// instructs the deck protocol to begin shuffling and mirrors the deck's
    /// substatus. In every other phase it returns `OngoingRound` and leaves
    /// the game, the deck and the betting table unchanged.
    pub fn start(&mut self) -> (r: Result<(), GameError>)
        requires
            old(self)@.wf(),
        ensures
            final(self)@.wf(),
            r is Ok <==> old(self)@.start_allowed(),
            r is Ok ==> final(self)@ == (GameModel {
                status: GameStatus::DeckAction(DeckStatus::Shuffling),
                deck: DeckModel {
                    status: DeckStatus::Shuffling,
                    shuffles_done: 0,
                    reveals_done: 0,
                    revealed: Seq::<CryptoHash>::empty(),
                    ..old(self)@.deck
                },
                ..old(self)@
            }),
            !old(self)@.start_allowed() ==> final(self)@ == old(self)@ && r == Err::<
                (),
                GameError,
            >(GameError::OngoingRound),
    {
        match self.status {
            GameStatus::Initiating | GameStatus::Idle => {
                let res = self.deck.start();
                match res {
                    Ok(()) => {
                        self.status = GameStatus::DeckAction(self.deck.get_status());
                        Ok(())
                    },
                    Err(e) => Err(GameError::from(e)),
                }
            },
            _ => Err(GameError::OngoingRound),
        }
    }

    /// Closes the game: accepted exactly in `Initiating` or `Idle`, where it
    /// tears the deck protocol down and moves to the terminal `Closed`
    /// phase. In every other phase it returns `OngoingRound` and leaves the
    /// game unchanged.
    pub fn close(&mut self) -> (r: Result<(), GameError>)
        requires
            old(self)@.wf(),
        ensures
            final(self)@.wf(),
            r is Ok <==> old(self)@.close_allowed(),
            r is Ok ==> final(self)@ == (GameModel {
                status: GameStatus::Closed,
                deck: DeckModel { status: DeckStatus::Closed, ..old(self)@.deck },
                ..old(self)@
            }),
            !old(self)@.close_allowed() ==> final(self)@ == old(self)@ && r == Err::<
                (),
                GameError,
            >(GameError::OngoingRound),
    {
        match self.status {
            GameStatus::Initiating | GameStatus::Idle => {
                self.deck.close();
                self.status = GameStatus::Closed;
                Ok(())
            },
            _ => Err(GameError::OngoingRound),
        }
    }

    /// Re-derives the aggregate status from the deck's reported substatus,
    /// handing authority to the betting protocol exactly when the deck
    /// reports itself ready.
    fn check_next_status(&mut self)
        ensures
            final(self)@ == old(self)@.reconciled(),
    {
        let deck_status = self.deck.get_status();

        if deck_status != DeckStatus::Running {
            self.status = GameStatus::DeckAction(deck_status);
            return ;
        }
        self.poker.next();
        self.status = GameStatus::PokerAction(self.poker.get_status());
    }

    /// Read-only snapshot of the deck protocol's state.
    pub fn deck_state(&self) -> (r: Deck)
        ensures
            r@ == self@.deck,
    {
        self.deck.snapshot()
    }

    /// Read-only snapshot of the betting protocol's state.
    pub fn poker_state(&self) -> (r: Poker)
        ensures
            r@ == self@.poker,
    {
        self.poker.snapshot()
    }

    /// The current aggregate status.
    pub fn state(&self) -> (r: GameStatus)
        ensures
            r == self@.status,
    {
        self.status
    }

    /// Forwards to the deck: the current partial-shuffle artifact. No state
    /// changes; deck-protocol errors are propagated losslessly.
    pub fn get_partial_shuffle(&self) -> (r: Result<Vec<CryptoHash>, GameError>)
        ensures
            r is Ok <==> self@.deck.status is Shuffling,
            r matches Ok(cards) ==> cards@ == self@.deck.cards,
            r is Err ==> r == Err::<Vec<CryptoHash>, GameError>(
                GameError::DeckError(DeckError::WrongStatus),
            ),
    {
        match self.deck.get_partial_shuffle() {
            Ok(cards) => Ok(cards),
            Err(e) => Err(GameError::from(e)),
        }
    }

    /// Forwards a full shuffled commitment list to the deck, then
    /// re-derives the aggregate status.
    pub fn submit_shuffled(&mut self, new_cards: Vec<CryptoHash>) -> (r: Result<(), GameError>)
        requires
            old(self)@.wf(),
        ensures
            final(self)@.wf(),
            r is Ok <==> (old(self)@.deck.status is Shuffling && new_cards@.len()
                == old(self)@.deck.card_count),
            r is Ok ==> final(self)@ == (GameModel {
                deck: old(self)@.deck.after_submit(new_cards@),
                ..old(self)@
            }).reconciled(),
            r is Ok && !(final(self)@.deck.status is Running) ==> final(self)@.status
                == GameStatus::DeckAction(final(self)@.deck.status),
            r is Ok ==> (final(self)@.deck.status is Running <==> final(self)@.status
                is PokerAction),
            r is Err ==> final(self)@ == old(self)@,
            !(old(self)@.deck.status is Shuffling) ==> r == Err::<(), GameError>(
                GameError::DeckError(DeckError::WrongStatus),
            ),
            old(self)@.deck.status is Shuffling && new_cards@.len() != old(self)@.deck.card_count
                ==> r == Err::<(), GameError>(GameError::DeckError(DeckError::WrongCardCount)),
    {
        let res = self.deck.submit_shuffled(new_cards);
        match res {
            Ok(()) => {
                self.check_next_status();
                Ok(())
            },
            Err(e) => Err(GameError::from(e)),
        }
    }

    /// Signals the deck that a reveal step is complete, then re-derives the
    /// aggregate status; on the call where the deck first reports itself
    /// ready, authority passes to the betting protocol.
    pub fn finish_reveal(&mut self) -> (r: Result<(), GameError>)
        requires
            old(self)@.wf(),
        ensures
            final(self)@.wf(),
            r is Ok <==> old(self)@.deck.status is Revealing,
            r is Ok ==> final(self)@ == (GameModel {
                deck: old(self)@.deck.after_finish_reveal(),
                ..old(self)@
            }).reconciled(),
            r is Ok && !(final(self)@.deck.status is Running) ==> final(self)@.status
                == GameStatus::DeckAction(final(self)@.deck.status),
            r is Ok ==> (final(self)@.deck.status is Running <==> final(self)@.status
                is PokerAction),
            r is Err ==> final(self)@ == old(self)@ && r == Err::<(), GameError>(
                GameError::DeckError(DeckError::WrongStatus),
            ),
    {
        let res = self.deck.finish_reveal();
        match res {
            Ok(()) => {
                self.check_next_status();
                Ok(())
            },
            Err(e) => Err(GameError::from(e)),
        }
    }

    /// Forwards one revealed card to the deck, then re-derives the
    /// aggregate status.
    pub fn submit_reveal_part(&mut self, card: CryptoHash) -> (r: Result<(), GameError>)
        requires
            old(self)@.wf(),
        ensures
            final(self)@.wf(),
            r is Ok <==> old(self)@.deck.status is Revealing,
            r is Ok ==> final(self)@ == (GameModel {
                deck: DeckModel {
                    revealed: old(self)@.deck.revealed.push(card),
                    ..old(self)@.deck
                },
                ..old(self)@
            }).reconciled(),
            r is Ok ==> final(self)@.status == GameStatus::DeckAction(DeckStatus::Revealing),
            r is Err ==> final(self)@ == old(self)@ && r == Err::<(), GameError>(
                GameError::DeckError(DeckError::WrongStatus),
            ),
    {
        let res = self.deck.submit_reveal_part(card);
        match res {
            Ok(()) => {
                self.check_next_status();
                Ok(())
            },
            Err(e) => Err(GameError::from(e)),
        }
    }
}

impl Game {
    /// Runtime check of the model invariant [`GameModel::wf`].
    pub fn is_well_formed(&self) -> (r: bool)
        ensures
            r == self@.wf(),
    {
        let deck_ok = self.deck.is_well_formed();
        let sync_ok = self.poker.num_players() == self.deck.participant_count() as usize;
        let ds = self.deck.get_status();
        let status_ok = match self.status {
            GameStatus::Initiating => ds == DeckStatus::Initiating,
            GameStatus::Idle => ds == DeckStatus::Initiating,
            GameStatus::DeckAction(s) => s == ds && (s == DeckStatus::Shuffling || s
                == DeckStatus::Revealing),
            GameStatus::PokerAction(p) => p == self.poker.get_status() && ds == DeckStatus::Running,
            GameStatus::Closed => ds == DeckStatus::Closed,
        };
        deck_ok && sync_ok && status_ok
    }
}

/// How a game's model is laid out over its fields; for modules of this
/// crate that build or read a game field by field.
pub(crate) proof fn lemma_game_view_parts(g: &Game)
    ensures
        g@.name == g.name@,
        g@.id == g.id,
        g@.status == g.status,
        g@.deck == g.deck@,
        g@.poker == g.poker@,
{
}

/// Once `close` has succeeded the game is in `Closed`, and `Closed` is
/// absorbing: `start`, `close` and `enter` are no longer allowed, and the
/// deck rejects every forwarded shuffle or reveal message, so every
/// subsequent mutating operation fails and, by the operations' contracts,
/// leaves the game unchanged.
pub proof fn lemma_closed_is_absorbing(g: GameModel)
    requires
        g.wf(),
        g.status is Closed,
    ensures
        !g.start_allowed(),
        !g.close_allowed(),
        !g.enter_allowed(),
        !(g.deck.status is Shuffling),
        !(g.deck.status is Revealing),
{
}

/// While the deck protocol holds control, the deck is never already
/// "ready": the handoff to the betting protocol happens on the forwarding
/// call where the deck's status first becomes ready, and never before; the
/// aggregate status mirrors the deck's substatus exactly until then.
pub proof fn lemma_handoff_not_before(g: GameModel)
    requires
        g.wf(),
        g.status is DeckAction,
    ensures
        !(g.deck.status is Running),
        g.status == GameStatus::DeckAction(g.deck.status),
{
}

} // verus!
