//! The shuffle/reveal collaborator consumed by the orchestrator: a joint,
//! commitment-based card shuffle in which every participant shuffles the
//! committed deck in turn and then completes one reveal step, after which the
//! deck reports itself ready for play.

use vstd::prelude::*;

use crate::types::CryptoHash;

verus! {

/// Phase of the shuffle/reveal protocol. `Initiating` is the initial
/// substatus (entrants accepted, shuffle not yet begun); `Running` is the
/// distinguished "fully shuffled and playable" substatus that the
/// orchestrator branches on.
#[derive(Clone, Copy, PartialEq, Eq, Structural, Debug)]
pub enum DeckStatus {
    Initiating,
    Shuffling,
    Revealing,
    Running,
    Closed,
}

/// Why the deck protocol rejected a call.
#[derive(Clone, Copy, PartialEq, Eq, Structural, Debug)]
pub enum DeckError {
    /// The call is not legal in the deck protocol's current phase.
    WrongStatus,
    /// No seat is left: every card is already claimed by a participant.
    TableFull,
    /// A submitted shuffle does not hold exactly one commitment per card.
    WrongCardCount,
}

/// Mathematical model of a [`Deck`].
#[verifier::ext_equal]
pub struct DeckModel {
    pub card_count: u32,
    pub status: DeckStatus,
    pub participants: u32,
    pub shuffles_done: u32,
    pub reveals_done: u32,
    pub cards: Seq<CryptoHash>,
    pub revealed: Seq<CryptoHash>,
}

impl DeckModel {
    /// Internal consistency of a deck value: the counters never pass the
    /// number of participants while the corresponding phase is open, and
    /// seats never exceed cards.
    pub open spec fn wf(self) -> bool {
        &&& self.participants <= self.card_count
        &&& self.status is Shuffling ==> if self.participants == 0 {
            self.shuffles_done == 0
        } else {
            self.shuffles_done < self.participants
        }
        &&& self.status is Revealing ==> if self.participants == 0 {
            self.reveals_done == 0
        } else {
            self.reveals_done < self.participants
        }
    }

    /// The deck accepts a new entrant: only before the round starts, and
    /// only while a seat is left.
    pub open spec fn accepts_entry(self) -> bool {
        self.status is Initiating && self.participants < self.card_count
    }

    /// Model of a deck after one successful shuffle submission.
    pub open spec fn after_submit(self, new_cards: Seq<CryptoHash>) -> DeckModel {
        DeckModel {
            cards: new_cards,
            shuffles_done: (self.shuffles_done + 1) as u32,
            status: if self.shuffles_done + 1 >= self.participants {
                DeckStatus::Revealing
            } else {
                DeckStatus::Shuffling
            },
            reveals_done: 0,
            ..self
        }
    }

    /// Model of a deck after one successful reveal-completion signal.
    pub open spec fn after_finish_reveal(self) -> DeckModel {
        DeckModel {
            reveals_done: (self.reveals_done + 1) as u32,
            status: if self.reveals_done + 1 >= self.participants {
                DeckStatus::Running
            } else {
                DeckStatus::Revealing
            },
            ..self
        }
    }
}

/// One room's shuffle/reveal protocol instance. `cards` holds the latest
/// submitted commitment list; `revealed` collects reveal artifacts.
pub struct Deck {
    pub(crate) card_count: u32,
    pub(crate) status: DeckStatus,
    pub(crate) participants: u32,
    pub(crate) shuffles_done: u32,
    pub(crate) reveals_done: u32,
    pub(crate) cards: Vec<CryptoHash>,
    pub(crate) revealed: Vec<CryptoHash>,
}

impl View for Deck {
    type V = DeckModel;

    closed spec fn view(&self) -> DeckModel {
        DeckModel {
            card_count: self.card_count,
            status: self.status,
            participants: self.participants,
            shuffles_done: self.shuffles_done,
            reveals_done: self.reveals_done,
            cards: self.cards@,
            revealed: self.revealed@,
        }
    }
}

impl Deck {
    /// A fresh deck of `card_count` committed cards, accepting entrants.
    pub fn new(card_count: u32) -> (r: Deck)
        ensures
            r@ == (DeckModel {
                card_count,
                status: DeckStatus::Initiating,
                participants: 0,
                shuffles_done: 0,
                reveals_done: 0,
                cards: Seq::<CryptoHash>::empty(),
                revealed: Seq::<CryptoHash>::empty(),
            }),
            r@.wf(),
    {
        Deck {
            card_count,
            status: DeckStatus::Initiating,
            participants: 0,
            shuffles_done: 0,
            reveals_done: 0,
            cards: Vec::new(),
            revealed: Vec::new(),
        }
    }

    /// Current phase of the protocol.
    pub fn get_status(&self) -> (r: DeckStatus)
        ensures
            r == self@.status,
    {
        self.status
    }

    /// Seats one more participant, while the deck still accepts entrants.
    pub fn enter(&mut self) -> (r: Result<(), DeckError>)
        ensures
            r is Ok <==> old(self)@.accepts_entry(),
            old(self)@.accepts_entry() ==> final(self)@ == (DeckModel {
                participants: (old(self)@.participants + 1) as u32,
                ..old(self)@
            }),
            !old(self)@.accepts_entry() ==> {
                &&& final(self)@ == old(self)@
                &&& r == Err::<(), DeckError>(
                    if old(self)@.status is Initiating {
                        DeckError::TableFull
                    } else {
                        DeckError::WrongStatus
                    },
                )
            },
            old(self)@.wf() ==> final(self)@.wf(),
    {
        match self.status {
            DeckStatus::Initiating => {
                if self.participants < self.card_count {
                    self.participants = self.participants + 1;
                    Ok(())
                } else {
                    Err(DeckError::TableFull)
                }
            },
            _ => Err(DeckError::WrongStatus),
        }
    }

    /// Begins the joint shuffle. Legal exactly in the initial substatus.
    pub fn start(&mut self) -> (r: Result<(), DeckError>)
        ensures
            r is Ok <==> old(self)@.status is Initiating,
            old(self)@.status is Initiating ==> final(self)@ == (DeckModel {
                status: DeckStatus::Shuffling,
                shuffles_done: 0,
                reveals_done: 0,
                revealed: Seq::<CryptoHash>::empty(),
                ..old(self)@
            }),
            !(old(self)@.status is Initiating) ==> final(self)@ == old(self)@ && r == Err::<
                (),
                DeckError,
            >(DeckError::WrongStatus),
            old(self)@.wf() ==> final(self)@.wf(),
    {
        match self.status {
            DeckStatus::Initiating => {
                self.status = DeckStatus::Shuffling;
                self.shuffles_done = 0;
                self.reveals_done = 0;
                self.revealed = Vec::new();
                Ok(())
            },
            _ => Err(DeckError::WrongStatus),
        }
    }

    /// Tears the protocol down; no call is accepted afterwards.
    pub fn close(&mut self)
        ensures
            final(self)@ == (DeckModel { status: DeckStatus::Closed, ..old(self)@ }),
            old(self)@.wf() ==> final(self)@.wf(),
    {
        self.status = DeckStatus::Closed;
    }

    /// The latest partial-shuffle artifact: the commitment list as last
    /// submitted (empty until the first participant shuffles).
    pub fn get_partial_shuffle(&self) -> (r: Result<Vec<CryptoHash>, DeckError>)
        ensures
            r is Ok <==> self@.status is Shuffling,
            r matches Ok(cards) ==> cards@ == self@.cards,
            r is Err ==> r == Err::<Vec<CryptoHash>, DeckError>(DeckError::WrongStatus),
    {
        match self.status {
            DeckStatus::Shuffling => Ok(clone_hashes(&self.cards)),
            _ => Err(DeckError::WrongStatus),
        }
    }

    /// Accepts the next participant's shuffle of the committed deck. When
    /// the last participant has shuffled, the reveal phase opens.
    pub fn submit_shuffled(&mut self, new_cards: Vec<CryptoHash>) -> (r: Result<(), DeckError>)
        requires
            old(self)@.wf(),
        ensures
            final(self)@.wf(),
            r is Ok <==> (old(self)@.status is Shuffling && new_cards@.len()
                == old(self)@.card_count),
            r is Ok ==> final(self)@ == old(self)@.after_submit(new_cards@),
            r is Err ==> final(self)@ == old(self)@,
            !(old(self)@.status is Shuffling) ==> r == Err::<(), DeckError>(DeckError::WrongStatus),
            old(self)@.status is Shuffling && new_cards@.len() != old(self)@.card_count ==> r
                == Err::<(), DeckError>(DeckError::WrongCardCount),
    {
        match self.status {
            DeckStatus::Shuffling => {
                if new_cards.len() != self.card_count as usize {
                    return Err(DeckError::WrongCardCount);
                }
                self.cards = new_cards;
                self.shuffles_done = self.shuffles_done + 1;
                self.reveals_done = 0;
                if self.shuffles_done >= self.participants {
                    self.status = DeckStatus::Revealing;
                }
                Ok(())
            },
            _ => Err(DeckError::WrongStatus),
        }
    }

    /// Signals that one participant's reveal step is complete. When the
    /// last participant finishes, the deck becomes ready for play.
    pub fn finish_reveal(&mut self) -> (r: Result<(), DeckError>)
        requires
            old(self)@.wf(),
        ensures
            final(self)@.wf(),
            r is Ok <==> old(self)@.status is Revealing,
            r is Ok ==> final(self)@ == old(self)@.after_finish_reveal(),
            r is Err ==> final(self)@ == old(self)@ && r == Err::<(), DeckError>(
                DeckError::WrongStatus,
            ),
    {
        match self.status {
            DeckStatus::Revealing => {
                self.reveals_done = self.reveals_done + 1;
                if self.reveals_done >= self.participants {
                    self.status = DeckStatus::Running;
                }
                Ok(())
            },
            _ => Err(DeckError::WrongStatus),
        }
    }

    /// Records one revealed card. Legal exactly during the reveal phase;
    /// the phase itself is left by [`Deck::finish_reveal`].
    pub fn submit_reveal_part(&mut self, card: CryptoHash) -> (r: Result<(), DeckError>)
        ensures
            r is Ok <==> old(self)@.status is Revealing,
            r is Ok ==> final(self)@ == (DeckModel {
                revealed: old(self)@.revealed.push(card),
                ..old(self)@
            }),
            r is Err ==> final(self)@ == old(self)@ && r == Err::<(), DeckError>(
                DeckError::WrongStatus,
            ),
            old(self)@.wf() ==> final(self)@.wf(),
    {
        match self.status {
            DeckStatus::Revealing => {
                self.revealed.push(card);
                Ok(())
            },
            _ => Err(DeckError::WrongStatus),
        }
    }

    /// An independent copy with the same model, for read-only snapshots.
    pub fn snapshot(&self) -> (r: Deck)
        ensures
            r@ == self@,
    {
        Deck {
            card_count: self.card_count,
            status: self.status,
            participants: self.participants,
            shuffles_done: self.shuffles_done,
            reveals_done: self.reveals_done,
            cards: clone_hashes(&self.cards),
            revealed: clone_hashes(&self.revealed),
        }
    }
}

impl Deck {
    /// Runtime check of the model invariant [`DeckModel::wf`].
    pub fn is_well_formed(&self) -> (r: bool)
        ensures
            r == self@.wf(),
    {
        let counts_ok = self.participants <= self.card_count;
        let shuffle_ok = match self.status {
            DeckStatus::Shuffling => if self.participants == 0 {
                self.shuffles_done == 0
            } else {
                self.shuffles_done < self.participants
            },
            _ => true,
        };
        let reveal_ok = match self.status {
            DeckStatus::Revealing => if self.participants == 0 {
                self.reveals_done == 0
            } else {
                self.reveals_done < self.participants
            },
            _ => true,
        };
        counts_ok && shuffle_ok && reveal_ok
    }

    /// How many participants have entered.
    pub fn participant_count(&self) -> (r: u32)
        ensures
            r == self@.participants,
    {
        self.participants
    }
}

/// How a deck's model is laid out over its fields; for modules of this
/// crate that build or read a deck field by field.
pub(crate) proof fn lemma_deck_view_parts(d: &Deck)
    ensures
        d@.card_count == d.card_count,
        d@.status == d.status,
        d@.participants == d.participants,
        d@.shuffles_done == d.shuffles_done,
        d@.reveals_done == d.reveals_done,
        d@.cards == d.cards@,
        d@.revealed == d.revealed@,
{
}

/// Element-wise copy of a digest list.
fn clone_hashes(v: &Vec<CryptoHash>) -> (r: Vec<CryptoHash>)
    ensures
        r@ == v@,
{
    let mut out: Vec<CryptoHash> = Vec::new();
    let mut i: usize = 0;
    proof {
        assert(v@.take(0) =~= Seq::<CryptoHash>::empty());
    }
    while i < v.len()
        invariant
            i <= v@.len(),
            out@ == v@.take(i as int),
        decreases v@.len() - i,
    {
        out.push(v[i]);
        proof {
            assert(out@ =~= v@.take(i as int + 1));
        }
        i = i + 1;
    }
    proof {
        assert(v@.take(v@.len() as int) =~= v@);
    }
    out
}

} // verus!
