//! The betting collaborator consumed by the orchestrator: it registers one
//! betting participant per entrant and advances to the next decision point
//! when the orchestrator hands authority over.

use vstd::prelude::*;

verus! {

/// Phase of the betting protocol: `Waiting` until authority is handed over,
/// `Betting` once a decision point is open.
#[derive(Clone, Copy, PartialEq, Eq, Structural, Debug)]
pub enum PokerStatus {
    Waiting,
    Betting,
}

/// Mathematical model of a [`Poker`] table: each participant is recorded by
/// their starting stake, in order of entry.
#[verifier::ext_equal]
pub struct PokerModel {
    pub status: PokerStatus,
    pub players: Seq<u64>,
}

/// One room's betting protocol instance.
pub struct Poker {
    pub(crate) status: PokerStatus,
    pub(crate) players: Vec<u64>,
}

impl View for Poker {
    type V = PokerModel;

    closed spec fn view(&self) -> PokerModel {
        PokerModel { status: self.status, players: self.players@ }
    }
}

impl Poker {
    /// An empty betting table, waiting for authority.
    pub fn new() -> (r: Poker)
        ensures
            r@ == (PokerModel { status: PokerStatus::Waiting, players: Seq::<u64>::empty() }),
    {
        Poker { status: PokerStatus::Waiting, players: Vec::new() }
    }

    /// Registers one more betting participant with the given starting stake.
    pub fn new_player(&mut self, starting_stake: u64)
        ensures
            final(self)@ == (PokerModel {
                players: old(self)@.players.push(starting_stake),
                ..old(self)@
            }),
    {
        self.players.push(starting_stake);
    }

    /// Advances the betting round to its next decision point.
    pub fn next(&mut self)
        ensures
            final(self)@ == (PokerModel { status: PokerStatus::Betting, ..old(self)@ }),
    {
        self.status = PokerStatus::Betting;
    }

    /// Current phase of the protocol.
    pub fn get_status(&self) -> (r: PokerStatus)
        ensures
            r == self@.status,
    {
        self.status
    }

    /// The registered starting stakes, in order of entry.
    pub fn stakes(&self) -> (r: Vec<u64>)
        ensures
            r@ == self@.players,
    {
        let mut out: Vec<u64> = Vec::new();
        let mut i: usize = 0;
        proof {
            assert(self.players@.take(0) =~= Seq::<u64>::empty());
        }
        while i < self.players.len()
            invariant
                i <= self.players@.len(),
                out@ == self.players@.take(i as int),
            decreases self.players@.len() - i,
        {
            out.push(self.players[i]);
            proof {
                assert(out@ =~= self.players@.take(i as int + 1));
            }
            i = i + 1;
        }
        proof {
            assert(self.players@.take(self.players@.len() as int) =~= self.players@);
        }
        out
    }

    /// How many betting participants are registered.
    pub fn num_players(&self) -> (r: usize)
        ensures
            r == self@.players.len(),
    {
        self.players.len()
    }

    /// An independent copy with the same model, for read-only snapshots.
    pub fn snapshot(&self) -> (r: Poker)
        ensures
            r@ == self@,
    {
        Poker { status: self.status, players: self.stakes() }
    }
}

/// How a betting table's model is laid out over its fields; for modules of
/// this crate that build or read a table field by field.
pub(crate) proof fn lemma_poker_view_parts(p: &Poker)
    ensures
        p@.status == p.status,
        p@.players == p.players@,
{
}

} // verus!
