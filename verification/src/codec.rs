//! Stable, lossless binary serialization of the orchestrator's persisted
//! surface: [`Game`], [`GameStatus`] and [`GameError`]. Integers are laid
//! out little-endian; lists are length-prefixed; enums carry one tag byte;
//! text is a length-prefixed list of code points. Decoding accepts exactly
//! the encodings of well-formed values, so a host store can persist a game
//! and read back the identical logical value.

use vstd::prelude::*;

use crate::deck::Deck;
use crate::deck::DeckError;
use crate::deck::DeckModel;
use crate::deck::DeckStatus;
use crate::game::Game;
use crate::game::GameError;
use crate::game::GameModel;
use crate::game::GameStatus;
use crate::poker::Poker;
use crate::poker::PokerModel;
use crate::poker::PokerStatus;
use crate::types::CryptoHash;

verus! {

/// `p` is a prefix of `t`.
pub open spec fn starts_with(t: Seq<u8>, p: Seq<u8>) -> bool {
    p.len() <= t.len() && t.subrange(0, p.len() as int) == p
}

/// Little-endian bytes of a 32-bit integer.
pub open spec fn ser_u32(x: u32) -> Seq<u8> {
    seq![
        (x & 0xff) as u8,
        ((x >> 8) & 0xff) as u8,
        ((x >> 16) & 0xff) as u8,
        ((x >> 24) & 0xff) as u8,
    ]
}

/// Little-endian bytes of a 64-bit integer.
pub open spec fn ser_u64(x: u64) -> Seq<u8> {
    seq![
        (x & 0xff) as u8,
        ((x >> 8) & 0xff) as u8,
        ((x >> 16) & 0xff) as u8,
        ((x >> 24) & 0xff) as u8,
        ((x >> 32) & 0xff) as u8,
        ((x >> 40) & 0xff) as u8,
        ((x >> 48) & 0xff) as u8,
        ((x >> 56) & 0xff) as u8,
    ]
}

/// Tag byte of a deck substatus.
pub open spec fn deck_status_tag(s: DeckStatus) -> u8 {
    match s {
        DeckStatus::Initiating => 0,
        DeckStatus::Shuffling => 1,
        DeckStatus::Revealing => 2,
        DeckStatus::Running => 3,
        DeckStatus::Closed => 4,
    }
}

/// Encoding of a deck substatus.
pub open spec fn ser_deck_status(s: DeckStatus) -> Seq<u8> {
    seq![deck_status_tag(s)]
}

/// Tag byte of a betting substatus.
pub open spec fn poker_status_tag(s: PokerStatus) -> u8 {
    match s {
        PokerStatus::Waiting => 0,
        PokerStatus::Betting => 1,
    }
}

/// Encoding of a betting substatus.
pub open spec fn ser_poker_status(s: PokerStatus) -> Seq<u8> {
    seq![poker_status_tag(s)]
}

/// Tag byte of a deck error.
pub open spec fn deck_error_tag(e: DeckError) -> u8 {
    match e {
        DeckError::WrongStatus => 0,
        DeckError::TableFull => 1,
        DeckError::WrongCardCount => 2,
    }
}

/// Encoding of a deck error.
pub open spec fn ser_deck_error(e: DeckError) -> Seq<u8> {
    seq![deck_error_tag(e)]
}

/// Encoding of an aggregate game status: a tag byte, then the substatus of
/// the protocol that holds control, if any.
pub open spec fn ser_game_status(s: GameStatus) -> Seq<u8> {
    match s {
        GameStatus::Initiating => seq![0u8],
        GameStatus::Idle => seq![1u8],
        GameStatus::DeckAction(d) => seq![2u8] + ser_deck_status(d),
        GameStatus::PokerAction(p) => seq![3u8] + ser_poker_status(p),
        GameStatus::Closed => seq![4u8],
    }
}

/// Encoding of an orchestrator error: a tag byte, then the wrapped deck
/// error, if any.
pub open spec fn ser_game_error(e: GameError) -> Seq<u8> {
    match e {
        GameError::DeckError(d) => seq![0u8] + ser_deck_error(d),
        GameError::RoomIdNotFound => seq![1u8],
        GameError::OngoingRound => seq![2u8],
    }
}

proof fn lemma_u32_byte_bounds(x: u32)
    ensures
        x & 0xff < 256,
        (x >> 8) & 0xff < 256,
        (x >> 16) & 0xff < 256,
        (x >> 24) & 0xff < 256,
{
    assert(x & 0xff < 256 && (x >> 8) & 0xff < 256 && (x >> 16) & 0xff < 256 && (x >> 24) & 0xff
        < 256) by (bit_vector);
}

proof fn lemma_u64_byte_bounds(x: u64)
    ensures
        x & 0xff < 256,
        (x >> 8) & 0xff < 256,
        (x >> 16) & 0xff < 256,
        (x >> 24) & 0xff < 256,
        (x >> 32) & 0xff < 256,
        (x >> 40) & 0xff < 256,
        (x >> 48) & 0xff < 256,
        (x >> 56) & 0xff < 256,
{
    assert(x & 0xff < 256 && (x >> 8) & 0xff < 256 && (x >> 16) & 0xff < 256 && (x >> 24) & 0xff
        < 256 && (x >> 32) & 0xff < 256 && (x >> 40) & 0xff < 256 && (x >> 48) & 0xff < 256 && (x
        >> 56) & 0xff < 256) by (bit_vector);
}

/// Appends the little-endian bytes of `x`.
fn write_u32(out: &mut Vec<u8>, x: u32)
    ensures
        final(out)@ == old(out)@ + ser_u32(x),
{
    proof {
        lemma_u32_byte_bounds(x);
    }
    out.push((x & 0xff) as u8);
    out.push(((x >> 8) & 0xff) as u8);
    out.push(((x >> 16) & 0xff) as u8);
    out.push(((x >> 24) & 0xff) as u8);
    proof {
        assert(out@ =~= old(out)@ + ser_u32(x));
    }
}

/// Appends the little-endian bytes of `x`.
fn write_u64(out: &mut Vec<u8>, x: u64)
    ensures
        final(out)@ == old(out)@ + ser_u64(x),
{
    proof {
        lemma_u64_byte_bounds(x);
    }
    out.push((x & 0xff) as u8);
    out.push(((x >> 8) & 0xff) as u8);
    out.push(((x >> 16) & 0xff) as u8);
    out.push(((x >> 24) & 0xff) as u8);
    out.push(((x >> 32) & 0xff) as u8);
    out.push(((x >> 40) & 0xff) as u8);
    out.push(((x >> 48) & 0xff) as u8);
    out.push(((x >> 56) & 0xff) as u8);
    proof {
        assert(out@ =~= old(out)@ + ser_u64(x));
    }
}

/// Reads one byte.
fn read_u8(b: &Vec<u8>, pos: usize) -> (r: Option<(u8, usize)>)
    ensures
        r is Some <==> pos + 1 <= b@.len(),
        r matches Some((x, end)) ==> end == pos + 1 && x == b@[pos as int],
{
    if pos < b.len() {
        Some((b[pos], pos + 1))
    } else {
        None
    }
}

/// Reads a little-endian 32-bit integer.
fn read_u32(b: &Vec<u8>, pos: usize) -> (r: Option<(u32, usize)>)
    requires
        pos <= b@.len(),
    ensures
        r is Some <==> pos + 4 <= b@.len(),
        r matches Some((x, end)) ==> end == pos + 4 && b@.subrange(pos as int, pos as int + 4)
            == ser_u32(x),
        forall|v: u32|
            starts_with(b@.skip(pos as int), ser_u32(v)) ==> (r matches Some((x2, end2)) && x2 == v
                && end2 == pos + 4),
{
    if b.len() < 4 || pos > b.len() - 4 {
        proof {
            assert forall|v: u32| starts_with(b@.skip(pos as int), ser_u32(v)) implies false by {
                assert(b@.skip(pos as int).len() == b@.len() - pos);
                assert(ser_u32(v).len() == 4);
            }
        }
        return None;
    }
    let b0 = b[pos];
    let b1 = b[pos + 1];
    let b2 = b[pos + 2];
    let b3 = b[pos + 3];
    let x = (b0 as u32) | ((b1 as u32) << 8) | ((b2 as u32) << 16) | ((b3 as u32) << 24);
    proof {
        assert((x & 0xff) as u8 == b0 && ((x >> 8) & 0xff) as u8 == b1 && ((x >> 16) & 0xff) as u8
            == b2 && ((x >> 24) & 0xff) as u8 == b3) by (bit_vector)
            requires
                x == (b0 as u32) | ((b1 as u32) << 8) | ((b2 as u32) << 16) | ((b3 as u32) << 24),
        ;
        assert(b@.subrange(pos as int, pos as int + 4) =~= ser_u32(x));
        assert forall|v: u32| starts_with(b@.skip(pos as int), ser_u32(v)) implies x == v by {
            assert(b@.skip(pos as int).subrange(0, 4) =~= b@.subrange(pos as int, pos as int + 4));
            assert(ser_u32(v) == ser_u32(x));
            assert(ser_u32(v)[0] == ser_u32(x)[0] && ser_u32(v)[1] == ser_u32(x)[1] && ser_u32(
                v,
            )[2] == ser_u32(x)[2] && ser_u32(v)[3] == ser_u32(x)[3]);
            assert(x == v) by (bit_vector)
                requires
                    (x & 0xff) as u8 == (v & 0xff) as u8,
                    ((x >> 8) & 0xff) as u8 == ((v >> 8) & 0xff) as u8,
                    ((x >> 16) & 0xff) as u8 == ((v >> 16) & 0xff) as u8,
                    ((x >> 24) & 0xff) as u8 == ((v >> 24) & 0xff) as u8,
            ;
        }
    }
    Some((x, pos + 4))
}

/// Reads a little-endian 64-bit integer.
fn read_u64(b: &Vec<u8>, pos: usize) -> (r: Option<(u64, usize)>)
    requires
        pos <= b@.len(),
    ensures
        r is Some <==> pos + 8 <= b@.len(),
        r matches Some((x, end)) ==> end == pos + 8 && b@.subrange(pos as int, pos as int + 8)
            == ser_u64(x),
        forall|v: u64|
            starts_with(b@.skip(pos as int), ser_u64(v)) ==> (r matches Some((x2, end2)) && x2 == v
                && end2 == pos + 8),
{
    if b.len() < 8 || pos > b.len() - 8 {
        proof {
            assert forall|v: u64| starts_with(b@.skip(pos as int), ser_u64(v)) implies false by {
                assert(b@.skip(pos as int).len() == b@.len() - pos);
                assert(ser_u64(v).len() == 8);
            }
        }
        return None;
    }
    let b0 = b[pos];
    let b1 = b[pos + 1];
    let b2 = b[pos + 2];
    let b3 = b[pos + 3];
    let b4 = b[pos + 4];
    let b5 = b[pos + 5];
    let b6 = b[pos + 6];
    let b7 = b[pos + 7];
    let x = (b0 as u64) | ((b1 as u64) << 8) | ((b2 as u64) << 16) | ((b3 as u64) << 24) | ((
    b4 as u64) << 32) | ((b5 as u64) << 40) | ((b6 as u64) << 48) | ((b7 as u64) << 56);
    proof {
        assert((x & 0xff) as u8 == b0 && ((x >> 8) & 0xff) as u8 == b1 && ((x >> 16) & 0xff) as u8
            == b2 && ((x >> 24) & 0xff) as u8 == b3 && ((x >> 32) & 0xff) as u8 == b4 && ((x >> 40)
            & 0xff) as u8 == b5 && ((x >> 48) & 0xff) as u8 == b6 && ((x >> 56) & 0xff) as u8 == b7)
            by (bit_vector)
            requires
                x == (b0 as u64) | ((b1 as u64) << 8) | ((b2 as u64) << 16) | ((b3 as u64) << 24)
                    | ((b4 as u64) << 32) | ((b5 as u64) << 40) | ((b6 as u64) << 48) | ((
                b7 as u64) << 56),
        ;
        assert(b@.subrange(pos as int, pos as int + 8) =~= ser_u64(x));
        assert forall|v: u64| starts_with(b@.skip(pos as int), ser_u64(v)) implies x == v by {
            assert(b@.skip(pos as int).subrange(0, 8) =~= b@.subrange(pos as int, pos as int + 8));
            assert(ser_u64(v) == ser_u64(x));
            assert(ser_u64(v)[0] == ser_u64(x)[0] && ser_u64(v)[1] == ser_u64(x)[1] && ser_u64(
                v,
            )[2] == ser_u64(x)[2] && ser_u64(v)[3] == ser_u64(x)[3] && ser_u64(v)[4] == ser_u64(
                x,
            )[4] && ser_u64(v)[5] == ser_u64(x)[5] && ser_u64(v)[6] == ser_u64(x)[6] && ser_u64(
                v,
            )[7] == ser_u64(x)[7]);
            assert(x == v) by (bit_vector)
                requires
                    (x & 0xff) as u8 == (v & 0xff) as u8,
                    ((x >> 8) & 0xff) as u8 == ((v >> 8) & 0xff) as u8,
                    ((x >> 16) & 0xff) as u8 == ((v >> 16) & 0xff) as u8,
                    ((x >> 24) & 0xff) as u8 == ((v >> 24) & 0xff) as u8,
                    ((x >> 32) & 0xff) as u8 == ((v >> 32) & 0xff) as u8,
                    ((x >> 40) & 0xff) as u8 == ((v >> 40) & 0xff) as u8,
                    ((x >> 48) & 0xff) as u8 == ((v >> 48) & 0xff) as u8,
                    ((x >> 56) & 0xff) as u8 == ((v >> 56) & 0xff) as u8,
            ;
        }
    }
    Some((x, pos + 8))
}

/// Appends the tag byte of a deck substatus.
fn write_deck_status(out: &mut Vec<u8>, s: DeckStatus)
    ensures
        final(out)@ == old(out)@ + ser_deck_status(s),
{
    match s {
        DeckStatus::Initiating => out.push(0),
        DeckStatus::Shuffling => out.push(1),
        DeckStatus::Revealing => out.push(2),
        DeckStatus::Running => out.push(3),
        DeckStatus::Closed => out.push(4),
    }
    proof {
        assert(out@ =~= old(out)@ + ser_deck_status(s));
    }
}

/// Reads a deck substatus.
fn read_deck_status(b: &Vec<u8>, pos: usize) -> (r: Option<(DeckStatus, usize)>)
    requires
        pos <= b@.len(),
    ensures
        r matches Some((s, end)) ==> end == pos + 1 && pos + 1 <= b@.len() && b@.subrange(
            pos as int,
            pos as int + 1,
        ) == ser_deck_status(s),
        forall|v: DeckStatus|
            starts_with(b@.skip(pos as int), ser_deck_status(v)) ==> (r matches Some((s2, end2))
                && s2 == v && end2 == pos + 1),
{
    let tag = match read_u8(b, pos) {
        Some((t, _)) => t,
        None => {
            proof {
                assert forall|v: DeckStatus|
                    starts_with(b@.skip(pos as int), ser_deck_status(v)) implies false by {
                    assert(b@.skip(pos as int).len() == b@.len() - pos);
                    assert(ser_deck_status(v).len() >= 1);
                }
            }
            return None;
        },
    };
    proof {
        assert forall|v: DeckStatus|
            starts_with(b@.skip(pos as int), ser_deck_status(v)) implies deck_status_tag(v)
            == b@[pos as int] by {
            assert(b@.skip(pos as int)[0] == b@[pos as int]);
            assert(ser_deck_status(v)[0] == deck_status_tag(v));
        }
    }
    let s = match tag {
        0 => DeckStatus::Initiating,
        1 => DeckStatus::Shuffling,
        2 => DeckStatus::Revealing,
        3 => DeckStatus::Running,
        4 => DeckStatus::Closed,
        _ => {
            proof {
                assert forall|v: DeckStatus|
                    starts_with(b@.skip(pos as int), ser_deck_status(v)) implies false by {
                    assert(deck_status_tag(v) <= 4);
                }
            }
            return None;
        },
    };
    proof {
        assert(b@.subrange(pos as int, pos as int + 1) =~= ser_deck_status(s));
    }
    Some((s, pos + 1))
}

/// Appends the tag byte of a betting substatus.
fn write_poker_status(out: &mut Vec<u8>, s: PokerStatus)
    ensures
        final(out)@ == old(out)@ + ser_poker_status(s),
{
    match s {
        PokerStatus::Waiting => out.push(0),
        PokerStatus::Betting => out.push(1),
    }
    proof {
        assert(out@ =~= old(out)@ + ser_poker_status(s));
    }
}

/// Reads a betting substatus.
fn read_poker_status(b: &Vec<u8>, pos: usize) -> (r: Option<(PokerStatus, usize)>)
    requires
        pos <= b@.len(),
    ensures
        r matches Some((s, end)) ==> end == pos + 1 && pos + 1 <= b@.len() && b@.subrange(
            pos as int,
            pos as int + 1,
        ) == ser_poker_status(s),
        forall|v: PokerStatus|
            starts_with(b@.skip(pos as int), ser_poker_status(v)) ==> (r matches Some((s2, end2))
                && s2 == v && end2 == pos + 1),
{
    let tag = match read_u8(b, pos) {
        Some((t, _)) => t,
        None => {
            proof {
                assert forall|v: PokerStatus|
                    starts_with(b@.skip(pos as int), ser_poker_status(v)) implies false by {
                    assert(b@.skip(pos as int).len() == b@.len() - pos);
                    assert(ser_poker_status(v).len() >= 1);
                }
            }
            return None;
        },
    };
    proof {
        assert forall|v: PokerStatus|
            starts_with(b@.skip(pos as int), ser_poker_status(v)) implies poker_status_tag(v)
            == b@[pos as int] by {
            assert(b@.skip(pos as int)[0] == b@[pos as int]);
            assert(ser_poker_status(v)[0] == poker_status_tag(v));
        }
    }
    let s = match tag {
        0 => PokerStatus::Waiting,
        1 => PokerStatus::Betting,
        _ => {
            proof {
                assert forall|v: PokerStatus|
                    starts_with(b@.skip(pos as int), ser_poker_status(v)) implies false by {
                    assert(poker_status_tag(v) <= 4);
                }
            }
            return None;
        },
    };
    proof {
        assert(b@.subrange(pos as int, pos as int + 1) =~= ser_poker_status(s));
    }
    Some((s, pos + 1))
}

/// Appends the tag byte of a deck error.
fn write_deck_error(out: &mut Vec<u8>, e: DeckError)
    ensures
        final(out)@ == old(out)@ + ser_deck_error(e),
{
    match e {
        DeckError::WrongStatus => out.push(0),
        DeckError::TableFull => out.push(1),
        DeckError::WrongCardCount => out.push(2),
    }
    proof {
        assert(out@ =~= old(out)@ + ser_deck_error(e));
    }
}

/// Reads a deck error.
fn read_deck_error(b: &Vec<u8>, pos: usize) -> (r: Option<(DeckError, usize)>)
    requires
        pos <= b@.len(),
    ensures
        r matches Some((e, end)) ==> end == pos + 1 && pos + 1 <= b@.len() && b@.subrange(
            pos as int,
            pos as int + 1,
        ) == ser_deck_error(e),
        forall|v: DeckError|
            starts_with(b@.skip(pos as int), ser_deck_error(v)) ==> (r matches Some((e2, end2))
                && e2 == v && end2 == pos + 1),
{
    let tag = match read_u8(b, pos) {
        Some((t, _)) => t,
        None => {
            proof {
                assert forall|v: DeckError|
                    starts_with(b@.skip(pos as int), ser_deck_error(v)) implies false by {
                    assert(b@.skip(pos as int).len() == b@.len() - pos);
                    assert(ser_deck_error(v).len() >= 1);
                }
            }
            return None;
        },
    };
    proof {
        assert forall|v: DeckError|
            starts_with(b@.skip(pos as int), ser_deck_error(v)) implies deck_error_tag(v)
            == b@[pos as int] by {
            assert(b@.skip(pos as int)[0] == b@[pos as int]);
            assert(ser_deck_error(v)[0] == deck_error_tag(v));
        }
    }
    let e = match tag {
        0 => DeckError::WrongStatus,
        1 => DeckError::TableFull,
        2 => DeckError::WrongCardCount,
        _ => {
            proof {
                assert forall|v: DeckError|
                    starts_with(b@.skip(pos as int), ser_deck_error(v)) implies false by {
                    assert(deck_error_tag(v) <= 4);
                }
            }
            return None;
        },
    };
    proof {
        assert(b@.subrange(pos as int, pos as int + 1) =~= ser_deck_error(e));
    }
    Some((e, pos + 1))
}

/// Appends the encoding of an aggregate game status.
fn write_game_status(out: &mut Vec<u8>, s: GameStatus)
    ensures
        final(out)@ == old(out)@ + ser_game_status(s),
{
    match s {
        GameStatus::Initiating => out.push(0),
        GameStatus::Idle => out.push(1),
        GameStatus::DeckAction(d) => {
            out.push(2);
            write_deck_status(out, d);
        },
        GameStatus::PokerAction(p) => {
            out.push(3);
            write_poker_status(out, p);
        },
        GameStatus::Closed => out.push(4),
    }
    proof {
        assert(out@ =~= old(out)@ + ser_game_status(s));
    }
}

/// Reads an aggregate game status.
#[verifier::rlimit(100)]
fn read_game_status(b: &Vec<u8>, pos: usize) -> (r: Option<(GameStatus, usize)>)
    requires
        pos <= b@.len(),
    ensures
        r matches Some((s, end)) ==> pos <= end <= b@.len() && b@.subrange(pos as int, end as int)
            == ser_game_status(s),
        forall|v: GameStatus|
            starts_with(b@.skip(pos as int), ser_game_status(v)) ==> (r matches Some((s2, end2))
                && s2 == v && end2 == pos + ser_game_status(v).len()),
{
    let tag = match read_u8(b, pos) {
        Some((t, _)) => t,
        None => {
            proof {
                assert forall|v: GameStatus|
                    starts_with(b@.skip(pos as int), ser_game_status(v)) implies false by {
                    assert(b@.skip(pos as int).len() == b@.len() - pos);
                    assert(ser_game_status(v).len() >= 1);
                }
            }
            return None;
        },
    };
    proof {
        assert forall|v: GameStatus|
            starts_with(b@.skip(pos as int), ser_game_status(v)) implies ((v is Initiating
            ==> b@[pos as int] == 0) && (v is Idle ==> b@[pos as int] == 1) && (v is DeckAction
            ==> b@[pos as int] == 2 && starts_with(
            b@.skip(pos as int + 1),
            ser_deck_status(v->DeckAction_0),
        )) && (v is PokerAction ==> b@[pos as int] == 3 && starts_with(
            b@.skip(pos as int + 1),
            ser_poker_status(v->PokerAction_0),
        )) && (v is Closed ==> b@[pos as int] == 4)) by {
            let t = b@.skip(pos as int);
            let p = ser_game_status(v);
            assert(t.subrange(0, p.len() as int)[0] == t[0]);
            assert(t[0] == b@[pos as int]);
            match v {
                GameStatus::DeckAction(d) => {
                    assert(p[0] == 2u8);
                    assert(p[1] == deck_status_tag(d));
                    assert(t.subrange(0, 2)[1] == t[1]);
                    assert(t[1] == b@[pos as int + 1]);
                    assert(b@.skip(pos as int + 1).subrange(0, 1) =~= ser_deck_status(d));
                },
                GameStatus::PokerAction(q) => {
                    assert(p[0] == 3u8);
                    assert(p[1] == poker_status_tag(q));
                    assert(t.subrange(0, 2)[1] == t[1]);
                    assert(t[1] == b@[pos as int + 1]);
                    assert(b@.skip(pos as int + 1).subrange(0, 1) =~= ser_poker_status(q));
                },
                _ => {},
            }
        }
    }
    match tag {
        0 => {
            proof {
                assert(b@.subrange(pos as int, pos as int + 1) =~= ser_game_status(
                    GameStatus::Initiating,
                ));
            }
            Some((GameStatus::Initiating, pos + 1))
        },
        1 => {
            proof {
                assert(b@.subrange(pos as int, pos as int + 1) =~= ser_game_status(
                    GameStatus::Idle,
                ));
            }
            Some((GameStatus::Idle, pos + 1))
        },
        2 => {
            match read_deck_status(b, pos + 1) {
                Some((d, end)) => {
                    proof {
                        assert(b@.subrange(pos as int, end as int) =~= ser_game_status(
                            GameStatus::DeckAction(d),
                        ));
                    }
                    Some((GameStatus::DeckAction(d), end))
                },
                None => {
                    proof {
                        assert forall|v: GameStatus|
                            starts_with(b@.skip(pos as int), ser_game_status(v)) implies false by {
                            assert(v is DeckAction);
                            assert(starts_with(
                                b@.skip(pos as int + 1),
                                ser_deck_status(v->DeckAction_0),
                            ));
                        }
                    }
                    None
                },
            }
        },
        3 => {
            match read_poker_status(b, pos + 1) {
                Some((p, end)) => {
                    proof {
                        assert(b@.subrange(pos as int, end as int) =~= ser_game_status(
                            GameStatus::PokerAction(p),
                        ));
                    }
                    Some((GameStatus::PokerAction(p), end))
                },
                None => {
                    proof {
                        assert forall|v: GameStatus|
                            starts_with(b@.skip(pos as int), ser_game_status(v)) implies false by {
                            assert(v is PokerAction);
                            assert(starts_with(
                                b@.skip(pos as int + 1),
                                ser_poker_status(v->PokerAction_0),
                            ));
                        }
                    }
                    None
                },
            }
        },
        4 => {
            proof {
                assert(b@.subrange(pos as int, pos as int + 1) =~= ser_game_status(
                    GameStatus::Closed,
                ));
            }
            Some((GameStatus::Closed, pos + 1))
        },
        _ => {
            proof {
                assert forall|v: GameStatus|
                    starts_with(b@.skip(pos as int), ser_game_status(v)) implies false by {
                    match v {
                        GameStatus::Initiating => {},
                        GameStatus::Idle => {},
                        GameStatus::DeckAction(_) => {},
                        GameStatus::PokerAction(_) => {},
                        GameStatus::Closed => {},
                    }
                }
            }
            None
        },
    }
}

/// Encodes an aggregate game status.
pub fn status_to_bytes(s: &GameStatus) -> (r: Vec<u8>)
    ensures
        r@ == ser_game_status(*s),
{
    let mut out: Vec<u8> = Vec::new();
    write_game_status(&mut out, *s);
    proof {
        assert(out@ =~= ser_game_status(*s));
    }
    out
}

/// Decodes an aggregate game status; accepts exactly the encodings that
/// [`status_to_bytes`] produces.
pub fn status_from_bytes(bytes: &Vec<u8>) -> (r: Option<GameStatus>)
    ensures
        r matches Some(s) ==> ser_game_status(s) == bytes@,
        forall|v: GameStatus| bytes@ == ser_game_status(v) ==> r == Some(v),
{
    let (s, end) = match read_game_status(bytes, 0) {
        Some(p) => p,
        None => {
            proof {
                assert forall|v: GameStatus| bytes@ == ser_game_status(v) implies false by {
                    assert(starts_with(bytes@.skip(0), ser_game_status(v))) by {
                        assert(bytes@.skip(0) =~= bytes@);
                        assert(bytes@.subrange(0, ser_game_status(v).len() as int) =~= bytes@);
                    }
                }
            }
            return None;
        },
    };
    if end != bytes.len() {
        proof {
            assert forall|v: GameStatus| bytes@ == ser_game_status(v) implies false by {
                assert(starts_with(bytes@.skip(0), ser_game_status(v))) by {
                    assert(bytes@.skip(0) =~= bytes@);
                    assert(bytes@.subrange(0, ser_game_status(v).len() as int) =~= bytes@);
                }
            }
        }
        return None;
    }
    proof {
        assert(bytes@.subrange(0, end as int) =~= bytes@);
        assert forall|v: GameStatus| bytes@ == ser_game_status(v) implies s == v by {
            assert(starts_with(bytes@.skip(0), ser_game_status(v))) by {
                assert(bytes@.skip(0) =~= bytes@);
                assert(bytes@.subrange(0, ser_game_status(v).len() as int) =~= bytes@);
            }
        }
    }
    Some(s)
}

/// Encodes an orchestrator error.
pub fn error_to_bytes(e: &GameError) -> (r: Vec<u8>)
    ensures
        r@ == ser_game_error(*e),
{
    let mut out: Vec<u8> = Vec::new();
    match *e {
        GameError::DeckError(d) => {
            out.push(0);
            write_deck_error(&mut out, d);
        },
        GameError::RoomIdNotFound => out.push(1),
        GameError::OngoingRound => out.push(2),
    }
    proof {
        assert(out@ =~= ser_game_error(*e));
    }
    out
}

/// Reads an orchestrator error.
#[verifier::rlimit(100)]
fn read_game_error(b: &Vec<u8>, pos: usize) -> (r: Option<(GameError, usize)>)
    requires
        pos <= b@.len(),
    ensures
        r matches Some((e, end)) ==> pos <= end <= b@.len() && b@.subrange(pos as int, end as int)
            == ser_game_error(e),
        forall|v: GameError|
            starts_with(b@.skip(pos as int), ser_game_error(v)) ==> (r matches Some((e2, end2))
                && e2 == v && end2 == pos + ser_game_error(v).len()),
{
    let tag = match read_u8(b, pos) {
        Some((t, _)) => t,
        None => {
            proof {
                assert forall|v: GameError|
                    starts_with(b@.skip(pos as int), ser_game_error(v)) implies false by {
                    assert(b@.skip(pos as int).len() == b@.len() - pos);
                    assert(ser_game_error(v).len() >= 1);
                }
            }
            return None;
        },
    };
    proof {
        assert forall|v: GameError|
            starts_with(b@.skip(pos as int), ser_game_error(v)) implies ((v is DeckError
            ==> b@[pos as int] == 0 && starts_with(
            b@.skip(pos as int + 1),
            ser_deck_error(v->DeckError_0),
        )) && (v is RoomIdNotFound ==> b@[pos as int] == 1) && (v is OngoingRound ==> b@[
            pos as int
        ] == 2)) by {
            let t = b@.skip(pos as int);
            let p = ser_game_error(v);
            assert(t.subrange(0, p.len() as int)[0] == t[0]);
            assert(t[0] == b@[pos as int]);
            match v {
                GameError::DeckError(d) => {
                    assert(p[0] == 0u8);
                    assert(p[1] == deck_error_tag(d));
                    assert(t.subrange(0, 2)[1] == t[1]);
                    assert(t[1] == b@[pos as int + 1]);
                    assert(b@.skip(pos as int + 1).subrange(0, 1) =~= ser_deck_error(d));
                },
                _ => {},
            }
        }
    }
    match tag {
        0 => {
            match read_deck_error(b, pos + 1) {
                Some((d, end)) => {
                    proof {
                        assert(b@.subrange(pos as int, end as int) =~= ser_game_error(
                            GameError::DeckError(d),
                        ));
                    }
                    Some((GameError::DeckError(d), end))
                },
                None => {
                    proof {
                        assert forall|v: GameError|
                            starts_with(b@.skip(pos as int), ser_game_error(v)) implies false by {
                            assert(v is DeckError);
                            assert(starts_with(
                                b@.skip(pos as int + 1),
                                ser_deck_error(v->DeckError_0),
                            ));
                        }
                    }
                    None
                },
            }
        },
        1 => {
            proof {
                assert(b@.subrange(pos as int, pos as int + 1) =~= ser_game_error(
                    GameError::RoomIdNotFound,
                ));
            }
            Some((GameError::RoomIdNotFound, pos + 1))
        },
        2 => {
            proof {
                assert(b@.subrange(pos as int, pos as int + 1) =~= ser_game_error(
                    GameError::OngoingRound,
                ));
            }
            Some((GameError::OngoingRound, pos + 1))
        },
        _ => {
            proof {
                assert forall|v: GameError|
                    starts_with(b@.skip(pos as int), ser_game_error(v)) implies false by {
                    match v {
                        GameError::DeckError(_) => {},
                        GameError::RoomIdNotFound => {},
                        GameError::OngoingRound => {},
                    }
                }
            }
            None
        },
    }
}

/// Decodes an orchestrator error; accepts exactly the encodings that
/// [`error_to_bytes`] produces.
pub fn error_from_bytes(bytes: &Vec<u8>) -> (r: Option<GameError>)
    ensures
        r matches Some(e) ==> ser_game_error(e) == bytes@,
        forall|v: GameError| bytes@ == ser_game_error(v) ==> r == Some(v),
{
    let (e, end) = match read_game_error(bytes, 0) {
        Some(p) => p,
        None => {
            proof {
                assert forall|v: GameError| bytes@ == ser_game_error(v) implies false by {
                    assert(starts_with(bytes@.skip(0), ser_game_error(v))) by {
                        assert(bytes@.skip(0) =~= bytes@);
                        assert(bytes@.subrange(0, ser_game_error(v).len() as int) =~= bytes@);
                    }
                }
            }
            return None;
        },
    };
    if end != bytes.len() {
        proof {
            assert forall|v: GameError| bytes@ == ser_game_error(v) implies false by {
                assert(starts_with(bytes@.skip(0), ser_game_error(v))) by {
                    assert(bytes@.skip(0) =~= bytes@);
                    assert(bytes@.subrange(0, ser_game_error(v).len() as int) =~= bytes@);
                }
            }
        }
        return None;
    }
    proof {
        assert(bytes@.subrange(0, end as int) =~= bytes@);
        assert forall|v: GameError| bytes@ == ser_game_error(v) implies e == v by {
            assert(starts_with(bytes@.skip(0), ser_game_error(v))) by {
                assert(bytes@.skip(0) =~= bytes@);
                assert(bytes@.subrange(0, ser_game_error(v).len() as int) =~= bytes@);
            }
        }
    }
    Some(e)
}

/// Relies on char::from_u32: `Some` of the character with the given code
/// point exactly for Unicode scalar values (code points outside the
/// surrogate range and at most 0x10FFFF), `None` otherwise.
pub assume_specification[ char::from_u32 ](n: u32) -> (r: Option<char>)
    ensures
        ((n < 0xD800) || (0xE000 <= n && n <= 0x10FFFF)) ==> r == Some(n as char),
        !((n < 0xD800) || (0xE000 <= n && n <= 0x10FFFF)) ==> r is None,
;

/// Relies on String::push: appends the given character to the string.
pub assume_specification[ String::push ](s: &mut String, ch: char)
    ensures
        final(s)@ == old(s)@.push(ch),
;

/// Encoding of one digest: its four words, little-endian.
pub open spec fn ser_hash(h: CryptoHash) -> Seq<u8> {
    ser_u64(h.w0) + ser_u64(h.w1) + ser_u64(h.w2) + ser_u64(h.w3)
}

/// Encoding of a digest sequence, element by element.
pub open spec fn ser_hashes(s: Seq<CryptoHash>) -> Seq<u8>
    decreases s.len(),
{
    if s.len() == 0 {
        Seq::<u8>::empty()
    } else {
        ser_hash(s[0]) + ser_hashes(s.skip(1))
    }
}

/// Encoding of a stake sequence, element by element.
pub open spec fn ser_stakes(s: Seq<u64>) -> Seq<u8>
    decreases s.len(),
{
    if s.len() == 0 {
        Seq::<u8>::empty()
    } else {
        ser_u64(s[0]) + ser_stakes(s.skip(1))
    }
}

/// Encoding of a character sequence: one code point each.
pub open spec fn ser_chars(s: Seq<char>) -> Seq<u8>
    decreases s.len(),
{
    if s.len() == 0 {
        Seq::<u8>::empty()
    } else {
        ser_u32(s[0] as u32) + ser_chars(s.skip(1))
    }
}

/// A length-prefixed character sequence.
pub open spec fn ser_string(s: Seq<char>) -> Seq<u8> {
    ser_u64(s.len() as u64) + ser_chars(s)
}

/// A length-prefixed digest sequence.
pub open spec fn ser_hash_list(s: Seq<CryptoHash>) -> Seq<u8> {
    ser_u64(s.len() as u64) + ser_hashes(s)
}

/// A length-prefixed stake sequence.
pub open spec fn ser_stake_list(s: Seq<u64>) -> Seq<u8> {
    ser_u64(s.len() as u64) + ser_stakes(s)
}

/// Encoding of a deck protocol state, field by field.
pub open spec fn ser_deck(d: DeckModel) -> Seq<u8> {
    ser_u32(d.card_count) + ser_deck_status(d.status) + ser_u32(d.participants) + ser_u32(
        d.shuffles_done,
    ) + ser_u32(d.reveals_done) + ser_hash_list(d.cards) + ser_hash_list(d.revealed)
}

/// Encoding of a betting protocol state.
pub open spec fn ser_poker(p: PokerModel) -> Seq<u8> {
    ser_poker_status(p.status) + ser_stake_list(p.players)
}

/// Encoding of a whole game.
pub open spec fn ser_game(m: GameModel) -> Seq<u8> {
    ser_string(m.name) + ser_u64(m.id) + ser_game_status(m.status) + ser_deck(m.deck) + ser_poker(
        m.poker,
    )
}

/// The character equals the character of its own code point, and the code
/// point is a Unicode scalar value. This holds of every character a real
/// string yields; it is stated explicitly because sequence elements in the
/// logic do not carry the primitive type's bounds.
pub open spec fn valid_code_point(c: char) -> bool {
    &&& (c as u32) as char == c
    &&& ((c as u32) < 0xD800) || (0xE000 <= (c as u32) && (c as u32) <= 0x10FFFF)
}

/// Every character of the sequence is a valid code point.
pub open spec fn valid_chars(s: Seq<char>) -> bool {
    forall|i: int| 0 <= i < s.len() ==> valid_code_point(#[trigger] s[i])
}

/// A game model whose sequences fit the machine and whose name consists of
/// valid code points: true of the model of every real game.
pub open spec fn game_bounded(m: GameModel) -> bool {
    &&& m.name.len() <= usize::MAX
    &&& valid_chars(m.name)
    &&& m.deck.cards.len() <= usize::MAX
    &&& m.deck.revealed.len() <= usize::MAX
    &&& m.poker.players.len() <= usize::MAX
}

/// A prefix made of two parts decomposes: the first part is a prefix, and
/// the second is a prefix of what follows it.
proof fn lemma_starts_with_concat(t: Seq<u8>, a: Seq<u8>, c: Seq<u8>)
    requires
        starts_with(t, a + c),
    ensures
        starts_with(t, a),
        starts_with(t.skip(a.len() as int), c),
{
    let n = a.len() + c.len();
    assert forall|j: int| 0 <= j < n implies t[j] == (a + c)[j] by {
        assert(t.subrange(0, n as int)[j] == t[j]);
    }
    assert(t.subrange(0, a.len() as int) =~= a);
    assert(t.skip(a.len() as int) =~= t.subrange(a.len() as int, t.len() as int));
    assert(t.skip(a.len() as int).subrange(0, c.len() as int) =~= c);
}

proof fn lemma_ser_hashes_push(s: Seq<CryptoHash>, h: CryptoHash)
    ensures
        ser_hashes(s.push(h)) == ser_hashes(s) + ser_hash(h),
    decreases s.len(),
{
    if s.len() == 0 {
        assert(s.push(h)[0] == h);
        assert(s.push(h).skip(1) =~= Seq::<CryptoHash>::empty());
        assert(ser_hashes(Seq::<CryptoHash>::empty()) == Seq::<u8>::empty());
        assert(ser_hash(h) + Seq::<u8>::empty() =~= ser_hash(h));
        assert(Seq::<u8>::empty() + ser_hash(h) =~= ser_hash(h));
    } else {
        assert(s.push(h)[0] == s[0]);
        assert(s.push(h).skip(1) =~= s.skip(1).push(h));
        lemma_ser_hashes_push(s.skip(1), h);
        assert(ser_hash(s[0]) + (ser_hashes(s.skip(1)) + ser_hash(h)) =~= (ser_hash(s[0])
            + ser_hashes(s.skip(1))) + ser_hash(h));
    }
}

proof fn lemma_ser_stakes_push(s: Seq<u64>, x: u64)
    ensures
        ser_stakes(s.push(x)) == ser_stakes(s) + ser_u64(x),
    decreases s.len(),
{
    if s.len() == 0 {
        assert(s.push(x)[0] == x);
        assert(s.push(x).skip(1) =~= Seq::<u64>::empty());
        assert(ser_stakes(Seq::<u64>::empty()) == Seq::<u8>::empty());
        assert(ser_u64(x) + Seq::<u8>::empty() =~= ser_u64(x));
        assert(Seq::<u8>::empty() + ser_u64(x) =~= ser_u64(x));
    } else {
        assert(s.push(x)[0] == s[0]);
        assert(s.push(x).skip(1) =~= s.skip(1).push(x));
        lemma_ser_stakes_push(s.skip(1), x);
        assert(ser_u64(s[0]) + (ser_stakes(s.skip(1)) + ser_u64(x)) =~= (ser_u64(s[0])
            + ser_stakes(s.skip(1))) + ser_u64(x));
    }
}

proof fn lemma_ser_chars_push(s: Seq<char>, c: char)
    ensures
        ser_chars(s.push(c)) == ser_chars(s) + ser_u32(c as u32),
    decreases s.len(),
{
    if s.len() == 0 {
        assert(s.push(c)[0] == c);
        assert(s.push(c).skip(1) =~= Seq::<char>::empty());
        assert(ser_chars(Seq::<char>::empty()) == Seq::<u8>::empty());
        assert(ser_u32(c as u32) + Seq::<u8>::empty() =~= ser_u32(c as u32));
        assert(Seq::<u8>::empty() + ser_u32(c as u32) =~= ser_u32(c as u32));
    } else {
        assert(s.push(c)[0] == s[0]);
        assert(s.push(c).skip(1) =~= s.skip(1).push(c));
        lemma_ser_chars_push(s.skip(1), c);
        assert(ser_u32(s[0] as u32) + (ser_chars(s.skip(1)) + ser_u32(c as u32)) =~= (ser_u32(
            s[0] as u32,
        ) + ser_chars(s.skip(1))) + ser_u32(c as u32));
    }
}

/// Appends the encoding of one digest.
fn write_hash(out: &mut Vec<u8>, h: &CryptoHash)
    ensures
        final(out)@ == old(out)@ + ser_hash(*h),
{
    write_u64(out, h.w0);
    write_u64(out, h.w1);
    write_u64(out, h.w2);
    write_u64(out, h.w3);
    proof {
        assert(out@ =~= old(out)@ + ser_hash(*h));
    }
}

/// Appends a length-prefixed digest list.
fn write_hash_list(out: &mut Vec<u8>, v: &Vec<CryptoHash>)
    ensures
        final(out)@ == old(out)@ + ser_hash_list(v@),
        v@.len() <= usize::MAX,
{
    let n = v.len();
    write_u64(out, n as u64);
    let mut i: usize = 0;
    proof {
        assert(v@.take(0) =~= Seq::<CryptoHash>::empty());
        assert(out@ =~= old(out)@ + ser_u64(n as u64) + ser_hashes(v@.take(0)));
    }
    while i < n
        invariant
            i <= n,
            n == v@.len(),
            out@ == old(out)@ + ser_u64(n as u64) + ser_hashes(v@.take(i as int)),
        decreases n - i,
    {
        write_hash(out, &v[i]);
        proof {
            assert(v@.take(i as int + 1) =~= v@.take(i as int).push(v@[i as int]));
            lemma_ser_hashes_push(v@.take(i as int), v@[i as int]);
        }
        i = i + 1;
    }
    proof {
        assert(v@.take(n as int) =~= v@);
        assert(old(out)@ + ser_u64(n as u64) + ser_hashes(v@) =~= old(out)@ + ser_hash_list(v@));
    }
}

/// Appends a length-prefixed stake list.
fn write_stake_list(out: &mut Vec<u8>, v: &Vec<u64>)
    ensures
        final(out)@ == old(out)@ + ser_stake_list(v@),
        v@.len() <= usize::MAX,
{
    let n = v.len();
    write_u64(out, n as u64);
    let mut i: usize = 0;
    proof {
        assert(v@.take(0) =~= Seq::<u64>::empty());
        assert(out@ =~= old(out)@ + ser_u64(n as u64) + ser_stakes(v@.take(0)));
    }
    while i < n
        invariant
            i <= n,
            n == v@.len(),
            out@ == old(out)@ + ser_u64(n as u64) + ser_stakes(v@.take(i as int)),
        decreases n - i,
    {
        write_u64(out, v[i]);
        proof {
            assert(v@.take(i as int + 1) =~= v@.take(i as int).push(v@[i as int]));
            lemma_ser_stakes_push(v@.take(i as int), v@[i as int]);
        }
        i = i + 1;
    }
    proof {
        assert(v@.take(n as int) =~= v@);
        assert(old(out)@ + ser_u64(n as u64) + ser_stakes(v@) =~= old(out)@ + ser_stake_list(v@));
    }
}

/// Appends a length-prefixed character sequence, one code point each.
fn write_string(out: &mut Vec<u8>, s: &str)
    ensures
        final(out)@ == old(out)@ + ser_string(s@),
        s@.len() <= usize::MAX,
        valid_chars(s@),
{
    let n = s.unicode_len();
    write_u64(out, n as u64);
    let mut i: usize = 0;
    proof {
        assert(s@.take(0) =~= Seq::<char>::empty());
        assert(out@ =~= old(out)@ + ser_u64(n as u64) + ser_chars(s@.take(0)));
    }
    while i < n
        invariant
            i <= n,
            n == s@.len(),
            out@ == old(out)@ + ser_u64(n as u64) + ser_chars(s@.take(i as int)),
            forall|j: int| 0 <= j < i ==> valid_code_point(#[trigger] s@[j]),
        decreases n - i,
    {
        let c = s.get_char(i);
        write_u32(out, c as u32);
        proof {
            assert(s@.take(i as int + 1) =~= s@.take(i as int).push(s@[i as int]));
            lemma_ser_chars_push(s@.take(i as int), s@[i as int]);
            assert(valid_code_point(c));
        }
        i = i + 1;
    }
    proof {
        assert(s@.take(n as int) =~= s@);
        assert(old(out)@ + ser_u64(n as u64) + ser_chars(s@) =~= old(out)@ + ser_string(s@));
    }
}

/// Reads one digest.
#[verifier::rlimit(60)]
fn read_hash(b: &Vec<u8>, pos: usize) -> (r: Option<(CryptoHash, usize)>)
    requires
        pos <= b@.len(),
    ensures
        r matches Some((h, end)) ==> pos <= end <= b@.len() && end == pos + 32 && b@.subrange(
            pos as int,
            end as int,
        ) == ser_hash(h),
        forall|v: CryptoHash|
            starts_with(b@.skip(pos as int), ser_hash(v)) ==> (r matches Some((h2, end2)) && h2 == v
                && end2 == pos + 32),
{
    proof {
        assert forall|v: CryptoHash|
            starts_with(b@.skip(pos as int), ser_hash(v)) implies starts_with(
            b@.skip(pos as int),
            ser_u64(v.w0),
        ) && starts_with(b@.skip(pos as int + 8), ser_u64(v.w1)) && starts_with(
            b@.skip(pos as int + 16),
            ser_u64(v.w2),
        ) && starts_with(b@.skip(pos as int + 24), ser_u64(v.w3)) by {
            let t = b@.skip(pos as int);
            assert(ser_hash(v) =~= ser_u64(v.w0) + (ser_u64(v.w1) + (ser_u64(v.w2) + ser_u64(
                v.w3,
            ))));
            lemma_starts_with_concat(t, ser_u64(v.w0), ser_u64(v.w1) + (ser_u64(v.w2) + ser_u64(
                v.w3,
            )));
            assert(t.skip(8) =~= b@.skip(pos as int + 8));
            lemma_starts_with_concat(b@.skip(pos as int + 8), ser_u64(v.w1), ser_u64(v.w2)
                + ser_u64(v.w3));
            assert(b@.skip(pos as int + 8).skip(8) =~= b@.skip(pos as int + 16));
            lemma_starts_with_concat(b@.skip(pos as int + 16), ser_u64(v.w2), ser_u64(v.w3));
            assert(b@.skip(pos as int + 16).skip(8) =~= b@.skip(pos as int + 24));
        }
    }
    let (w0, p1) = match read_u64(b, pos) {
        Some(x) => x,
        None => {
            return None;
        },
    };
    let (w1, p2) = match read_u64(b, p1) {
        Some(x) => x,
        None => {
            return None;
        },
    };
    let (w2, p3) = match read_u64(b, p2) {
        Some(x) => x,
        None => {
            return None;
        },
    };
    let (w3, p4) = match read_u64(b, p3) {
        Some(x) => x,
        None => {
            return None;
        },
    };
    let h = CryptoHash { w0, w1, w2, w3 };
    proof {
        assert(b@.subrange(pos as int, p4 as int) =~= b@.subrange(pos as int, p1 as int)
            + b@.subrange(p1 as int, p2 as int) + b@.subrange(p2 as int, p3 as int) + b@.subrange(
            p3 as int,
            p4 as int,
        ));
        assert(b@.subrange(pos as int, p4 as int) == ser_hash(h));
        assert forall|v: CryptoHash| starts_with(b@.skip(pos as int), ser_hash(v)) implies h
            == v by {
            assert(h =~= v);
        }
    }
    Some((h, p4))
}

/// Reads a length-prefixed digest list.
#[verifier::rlimit(60)]
#[verifier::loop_isolation(false)]
fn read_hash_list(b: &Vec<u8>, pos: usize) -> (r: Option<(Vec<CryptoHash>, usize)>)
    requires
        pos <= b@.len(),
    ensures
        r matches Some((v, end)) ==> pos <= end <= b@.len() && b@.subrange(pos as int, end as int)
            == ser_hash_list(v@) && v@.len() <= usize::MAX,
        forall|s: Seq<CryptoHash>|
            #![trigger ser_hash_list(s)]
            s.len() <= usize::MAX && starts_with(b@.skip(pos as int), ser_hash_list(s)) ==> (
            r matches Some((v2, end2)) && v2@ == s && end2 == pos + ser_hash_list(s).len()),
{
    proof {
        assert forall|s: Seq<CryptoHash>| #![trigger ser_hash_list(s)]
            starts_with(b@.skip(pos as int), ser_hash_list(s)) implies starts_with(
            b@.skip(pos as int),
            ser_u64(s.len() as u64),
        ) && starts_with(b@.skip(pos as int + 8), ser_hashes(s)) by {
            lemma_starts_with_concat(b@.skip(pos as int), ser_u64(s.len() as u64), ser_hashes(s));
            assert(b@.skip(pos as int).skip(8) =~= b@.skip(pos as int + 8));
        }
    }
    let (count, p1) = match read_u64(b, pos) {
        Some(x) => x,
        None => {
            proof {
                assert forall|s: Seq<CryptoHash>|
                    s.len() <= usize::MAX && starts_with(
                        b@.skip(pos as int),
                        ser_hash_list(s),
                    ) implies false by {
                    assert(b@.skip(pos as int).len() == b@.len() - pos);
                }
            }
            return None;
        },
    };
    if count > usize::MAX as u64 {
        proof {
            assert forall|s: Seq<CryptoHash>|
                s.len() <= usize::MAX && starts_with(
                    b@.skip(pos as int),
                    ser_hash_list(s),
                ) implies false by {
                lemma_starts_with_concat(
                    b@.skip(pos as int),
                    ser_u64(s.len() as u64),
                    ser_hashes(s),
                );
                assert(count == s.len() as u64);
            }
        }
        return None;
    }
    let n = count as usize;
    let mut out: Vec<CryptoHash> = Vec::new();
    let mut cur: usize = p1;
    let mut i: usize = 0;
    proof {
        assert(ser_hashes(out@) == Seq::<u8>::empty());
        assert(b@.subrange(p1 as int, p1 as int) =~= Seq::<u8>::empty());
        assert forall|s: Seq<CryptoHash>|
            s.len() == count && starts_with(b@.skip(p1 as int), ser_hashes(s)) implies (out@
            == s.take(0) && starts_with(b@.skip(p1 as int), ser_hashes(s.skip(0)))) by {
            assert(s.take(0) =~= out@);
            assert(s.skip(0) =~= s);
        }
    }
    while i < n
        invariant
            pos <= p1 <= cur <= b@.len(),
            p1 == pos + 8,
            i <= n,
            n == count,
            out@.len() == i,
            b@.subrange(p1 as int, cur as int) == ser_hashes(out@),
            forall|s: Seq<CryptoHash>|
                #![trigger ser_hashes(s)]
                s.len() == count && starts_with(b@.skip(p1 as int), ser_hashes(s)) ==> (out@
                    == s.take(i as int) && starts_with(
                    b@.skip(cur as int),
                    ser_hashes(s.skip(i as int)),
                )),
        decreases n - i,
    {
        proof {
            assert forall|s: Seq<CryptoHash>|
                s.len() == count && starts_with(b@.skip(p1 as int), ser_hashes(s)) implies
            starts_with(b@.skip(cur as int), ser_hash(s[i as int])) && starts_with(
                b@.skip(cur as int + 32),
                ser_hashes(s.skip(i as int + 1)),
            ) by {
                let rest = s.skip(i as int);
                assert(out@ == s.take(i as int) && starts_with(
                    b@.skip(cur as int),
                    ser_hashes(rest),
                ));
                assert(rest.len() > 0);
                assert(rest[0] == s[i as int]);
                assert(rest.skip(1) =~= s.skip(i as int + 1));
                assert(ser_hashes(rest) == ser_hash(rest[0]) + ser_hashes(rest.skip(1)));
                assert(ser_hashes(rest) == ser_hash(s[i as int]) + ser_hashes(
                    s.skip(i as int + 1),
                ));
                assert(starts_with(
                    b@.skip(cur as int),
                    ser_hash(s[i as int]) + ser_hashes(s.skip(i as int + 1)),
                ));
                lemma_starts_with_concat(
                    b@.skip(cur as int),
                    ser_hash(s[i as int]),
                    ser_hashes(s.skip(i as int + 1)),
                );
                assert(b@.skip(cur as int).skip(32) =~= b@.skip(cur as int + 32));
            }
        }
        let (h, nxt) = match read_hash(b, cur) {
            Some(x) => x,
            None => {
                proof {
                    assert forall|s: Seq<CryptoHash>|
                        s.len() <= usize::MAX && starts_with(
                            b@.skip(pos as int),
                            ser_hash_list(s),
                        ) implies false by {
                        lemma_starts_with_concat(
                            b@.skip(pos as int),
                            ser_u64(s.len() as u64),
                            ser_hashes(s),
                        );
                        assert(count == s.len() as u64);
                        assert(s.len() == count);
                        assert(b@.skip(pos as int).skip(8) =~= b@.skip(pos as int + 8));
                        assert(starts_with(b@.skip(p1 as int), ser_hashes(s)));
                        assert(starts_with(b@.skip(cur as int), ser_hashes(s.skip(i as int))));
                        let rest = s.skip(i as int);
                        assert(rest.len() > 0);
                        assert(rest[0] == s[i as int]);
                        assert(ser_hashes(rest) == ser_hash(rest[0]) + ser_hashes(rest.skip(1)));
                        lemma_starts_with_concat(
                            b@.skip(cur as int),
                            ser_hash(rest[0]),
                            ser_hashes(rest.skip(1)),
                        );
                        assert(starts_with(b@.skip(cur as int), ser_hash(rest[0])));
                    }
                }
                return None;
            },
        };
        let ghost prev = out@;
        out.push(h);
        proof {
            lemma_ser_hashes_push(prev, h);
            assert(out@ == prev.push(h));
            assert(b@.subrange(p1 as int, nxt as int) =~= b@.subrange(p1 as int, cur as int)
                + b@.subrange(cur as int, nxt as int));
            assert(b@.subrange(p1 as int, nxt as int) == ser_hashes(out@));
            assert forall|s: Seq<CryptoHash>|
                #![trigger ser_hashes(s)]
                s.len() == count && starts_with(b@.skip(p1 as int), ser_hashes(s)) implies (out@
                == s.take(i as int + 1) && starts_with(
                b@.skip(nxt as int),
                ser_hashes(s.skip(i as int + 1)),
            )) by {
                assert(prev == s.take(i as int) && starts_with(
                    b@.skip(cur as int),
                    ser_hashes(s.skip(i as int)),
                ));
                assert(starts_with(b@.skip(cur as int), ser_hash(s[i as int])));
                assert(h == s[i as int]);
                assert(s.take(i as int + 1) =~= s.take(i as int).push(s[i as int]));
            }
        }
        cur = nxt;
        i = i + 1;
    }
    proof {
        assert(b@.subrange(pos as int, cur as int) =~= b@.subrange(pos as int, p1 as int)
            + b@.subrange(p1 as int, cur as int));
        assert(b@.subrange(pos as int, cur as int) == ser_hash_list(out@));
        assert forall|s: Seq<CryptoHash>|
            s.len() <= usize::MAX && starts_with(b@.skip(pos as int), ser_hash_list(s)) implies (
        out@ == s && cur == pos + ser_hash_list(s).len()) by {
            lemma_starts_with_concat(
                b@.skip(pos as int),
                ser_u64(s.len() as u64),
                ser_hashes(s),
            );
            assert(b@.skip(pos as int).skip(8) =~= b@.skip(pos as int + 8));
            assert(starts_with(b@.skip(p1 as int), ser_hashes(s)));
            assert(s.len() as u64 == count);
            assert(s.len() == count);
            assert(out@ == s.take(s.len() as int));
            assert(s.take(s.len() as int) =~= s);
            assert(ser_hashes(s) == ser_hashes(out@));
        }
    }
    Some((out, cur))
}

/// Reads a length-prefixed stake list.
#[verifier::rlimit(60)]
#[verifier::loop_isolation(false)]
fn read_stake_list(b: &Vec<u8>, pos: usize) -> (r: Option<(Vec<u64>, usize)>)
    requires
        pos <= b@.len(),
    ensures
        r matches Some((v, end)) ==> pos <= end <= b@.len() && b@.subrange(pos as int, end as int)
            == ser_stake_list(v@) && v@.len() <= usize::MAX,
        forall|s: Seq<u64>|
            #![trigger ser_stake_list(s)]
            s.len() <= usize::MAX && starts_with(b@.skip(pos as int), ser_stake_list(s)) ==> (
            r matches Some((v2, end2)) && v2@ == s && end2 == pos + ser_stake_list(s).len()),
{
    proof {
        assert forall|s: Seq<u64>| #![trigger ser_stake_list(s)]
            starts_with(b@.skip(pos as int), ser_stake_list(s)) implies starts_with(
            b@.skip(pos as int),
            ser_u64(s.len() as u64),
        ) && starts_with(b@.skip(pos as int + 8), ser_stakes(s)) by {
            lemma_starts_with_concat(b@.skip(pos as int), ser_u64(s.len() as u64), ser_stakes(s));
            assert(b@.skip(pos as int).skip(8) =~= b@.skip(pos as int + 8));
        }
    }
    let (count, p1) = match read_u64(b, pos) {
        Some(x) => x,
        None => {
            proof {
                assert forall|s: Seq<u64>|
                    s.len() <= usize::MAX && starts_with(
                        b@.skip(pos as int),
                        ser_stake_list(s),
                    ) implies false by {
                    assert(b@.skip(pos as int).len() == b@.len() - pos);
                }
            }
            return None;
        },
    };
    if count > usize::MAX as u64 {
        proof {
            assert forall|s: Seq<u64>|
                s.len() <= usize::MAX && starts_with(
                    b@.skip(pos as int),
                    ser_stake_list(s),
                ) implies false by {
                lemma_starts_with_concat(
                    b@.skip(pos as int),
                    ser_u64(s.len() as u64),
                    ser_stakes(s),
                );
                assert(count == s.len() as u64);
            }
        }
        return None;
    }
    let n = count as usize;
    let mut out: Vec<u64> = Vec::new();
    let mut cur: usize = p1;
    let mut i: usize = 0;
    proof {
        assert(ser_stakes(out@) == Seq::<u8>::empty());
        assert(b@.subrange(p1 as int, p1 as int) =~= Seq::<u8>::empty());
        assert forall|s: Seq<u64>|
            s.len() == count && starts_with(b@.skip(p1 as int), ser_stakes(s)) implies (out@
            == s.take(0) && starts_with(b@.skip(p1 as int), ser_stakes(s.skip(0)))) by {
            assert(s.take(0) =~= out@);
            assert(s.skip(0) =~= s);
        }
    }
    while i < n
        invariant
            pos <= p1 <= cur <= b@.len(),
            p1 == pos + 8,
            i <= n,
            n == count,
            out@.len() == i,
            b@.subrange(p1 as int, cur as int) == ser_stakes(out@),
            forall|s: Seq<u64>|
                #![trigger ser_stakes(s)]
                s.len() == count && starts_with(b@.skip(p1 as int), ser_stakes(s)) ==> (out@
                    == s.take(i as int) && starts_with(
                    b@.skip(cur as int),
                    ser_stakes(s.skip(i as int)),
                )),
        decreases n - i,
    {
        proof {
            assert forall|s: Seq<u64>|
                s.len() == count && starts_with(b@.skip(p1 as int), ser_stakes(s)) implies
            starts_with(b@.skip(cur as int), ser_u64(s[i as int])) && starts_with(
                b@.skip(cur as int + 8),
                ser_stakes(s.skip(i as int + 1)),
            ) by {
                let rest = s.skip(i as int);
                assert(out@ == s.take(i as int) && starts_with(
                    b@.skip(cur as int),
                    ser_stakes(rest),
                ));
                assert(rest.len() > 0);
                assert(rest[0] == s[i as int]);
                assert(rest.skip(1) =~= s.skip(i as int + 1));
                assert(ser_stakes(rest) == ser_u64(rest[0]) + ser_stakes(rest.skip(1)));
                assert(ser_stakes(rest) == ser_u64(s[i as int]) + ser_stakes(
                    s.skip(i as int + 1),
                ));
                assert(starts_with(
                    b@.skip(cur as int),
                    ser_u64(s[i as int]) + ser_stakes(s.skip(i as int + 1)),
                ));
                lemma_starts_with_concat(
                    b@.skip(cur as int),
                    ser_u64(s[i as int]),
                    ser_stakes(s.skip(i as int + 1)),
                );
                assert(b@.skip(cur as int).skip(8) =~= b@.skip(cur as int + 8));
            }
        }
        let (x, nxt) = match read_u64(b, cur) {
            Some(p) => p,
            None => {
                proof {
                    assert forall|s: Seq<u64>|
                        s.len() <= usize::MAX && starts_with(
                            b@.skip(pos as int),
                            ser_stake_list(s),
                        ) implies false by {
                        lemma_starts_with_concat(
                            b@.skip(pos as int),
                            ser_u64(s.len() as u64),
                            ser_stakes(s),
                        );
                        assert(count == s.len() as u64);
                        assert(s.len() == count);
                        assert(b@.skip(pos as int).skip(8) =~= b@.skip(pos as int + 8));
                        assert(starts_with(b@.skip(p1 as int), ser_stakes(s)));
                        assert(starts_with(b@.skip(cur as int), ser_stakes(s.skip(i as int))));
                        let rest = s.skip(i as int);
                        assert(rest.len() > 0);
                        assert(rest[0] == s[i as int]);
                        assert(ser_stakes(rest) == ser_u64(rest[0]) + ser_stakes(rest.skip(1)));
                        lemma_starts_with_concat(
                            b@.skip(cur as int),
                            ser_u64(rest[0]),
                            ser_stakes(rest.skip(1)),
                        );
                        assert(starts_with(b@.skip(cur as int), ser_u64(rest[0])));
                    }
                }
                return None;
            },
        };
        let ghost prev = out@;
        out.push(x);
        proof {
            lemma_ser_stakes_push(prev, x);
            assert(out@ == prev.push(x));
            assert(b@.subrange(p1 as int, nxt as int) =~= b@.subrange(p1 as int, cur as int)
                + b@.subrange(cur as int, nxt as int));
            assert(b@.subrange(p1 as int, nxt as int) == ser_stakes(out@));
            assert forall|s: Seq<u64>|
                #![trigger ser_stakes(s)]
                s.len() == count && starts_with(b@.skip(p1 as int), ser_stakes(s)) implies (out@
                == s.take(i as int + 1) && starts_with(
                b@.skip(nxt as int),
                ser_stakes(s.skip(i as int + 1)),
            )) by {
                assert(prev == s.take(i as int) && starts_with(
                    b@.skip(cur as int),
                    ser_stakes(s.skip(i as int)),
                ));
                assert(starts_with(b@.skip(cur as int), ser_u64(s[i as int])));
                assert(x == s[i as int]);
                assert(s.take(i as int + 1) =~= s.take(i as int).push(s[i as int]));
            }
        }
        cur = nxt;
        i = i + 1;
    }
    proof {
        assert(b@.subrange(pos as int, cur as int) =~= b@.subrange(pos as int, p1 as int)
            + b@.subrange(p1 as int, cur as int));
        assert(b@.subrange(pos as int, cur as int) == ser_stake_list(out@));
        assert forall|s: Seq<u64>|
            s.len() <= usize::MAX && starts_with(b@.skip(pos as int), ser_stake_list(s)) implies (
        out@ == s && cur == pos + ser_stake_list(s).len()) by {
            lemma_starts_with_concat(
                b@.skip(pos as int),
                ser_u64(s.len() as u64),
                ser_stakes(s),
            );
            assert(b@.skip(pos as int).skip(8) =~= b@.skip(pos as int + 8));
            assert(starts_with(b@.skip(p1 as int), ser_stakes(s)));
            assert(s.len() as u64 == count);
            assert(s.len() == count);
            assert(out@ == s.take(s.len() as int));
            assert(s.take(s.len() as int) =~= s);
            assert(ser_stakes(s) == ser_stakes(out@));
        }
    }
    Some((out, cur))
}

/// Reads a length-prefixed character sequence of valid code points.
#[verifier::rlimit(60)]
#[verifier::loop_isolation(false)]
fn read_string(b: &Vec<u8>, pos: usize) -> (r: Option<(String, usize)>)
    requires
        pos <= b@.len(),
    ensures
        r matches Some((st, end)) ==> pos <= end <= b@.len() && b@.subrange(pos as int, end as int)
            == ser_string(st@),
        r matches Some((st, end)) ==> st@.len() <= usize::MAX && valid_chars(st@),
        forall|s: Seq<char>|
            #![trigger ser_string(s)]
            s.len() <= usize::MAX && valid_chars(s) && starts_with(
                b@.skip(pos as int),
                ser_string(s),
            ) ==> (r matches Some((st2, end2)) && st2@ == s && end2 == pos + ser_string(s).len()),
{
    proof {
        assert forall|s: Seq<char>| #![trigger ser_string(s)]
            starts_with(b@.skip(pos as int), ser_string(s)) implies starts_with(
            b@.skip(pos as int),
            ser_u64(s.len() as u64),
        ) && starts_with(b@.skip(pos as int + 8), ser_chars(s)) by {
            lemma_starts_with_concat(b@.skip(pos as int), ser_u64(s.len() as u64), ser_chars(s));
            assert(b@.skip(pos as int).skip(8) =~= b@.skip(pos as int + 8));
        }
    }
    let (count, p1) = match read_u64(b, pos) {
        Some(x) => x,
        None => {
            proof {
                assert forall|s: Seq<char>|
                    s.len() <= usize::MAX && valid_chars(s) && starts_with(
                        b@.skip(pos as int),
                        ser_string(s),
                    ) implies false by {
                    assert(b@.skip(pos as int).len() == b@.len() - pos);
                }
            }
            return None;
        },
    };
    if count > usize::MAX as u64 {
        proof {
            assert forall|s: Seq<char>|
                s.len() <= usize::MAX && valid_chars(s) && starts_with(
                    b@.skip(pos as int),
                    ser_string(s),
                ) implies false by {
                lemma_starts_with_concat(
                    b@.skip(pos as int),
                    ser_u64(s.len() as u64),
                    ser_chars(s),
                );
                assert(count == s.len() as u64);
            }
        }
        return None;
    }
    let n = count as usize;
    let mut out = String::new();
    let mut cur: usize = p1;
    let mut i: usize = 0;
    proof {
        assert(ser_chars(out@) == Seq::<u8>::empty());
        assert(b@.subrange(p1 as int, p1 as int) =~= Seq::<u8>::empty());
        assert forall|s: Seq<char>|
            s.len() == count && valid_chars(s) && starts_with(
                b@.skip(p1 as int),
                ser_chars(s),
            ) implies (out@ == s.take(0) && starts_with(b@.skip(p1 as int), ser_chars(s.skip(0))))
            by {
            assert(s.take(0) =~= out@);
            assert(s.skip(0) =~= s);
        }
    }
    while i < n
        invariant
            pos <= p1 <= cur <= b@.len(),
            p1 == pos + 8,
            i <= n,
            n == count,
            out@.len() == i,
            valid_chars(out@),
            b@.subrange(p1 as int, cur as int) == ser_chars(out@),
            forall|s: Seq<char>|
                #![trigger ser_chars(s)]
                s.len() == count && valid_chars(s) && starts_with(
                    b@.skip(p1 as int),
                    ser_chars(s),
                ) ==> (out@ == s.take(i as int) && starts_with(
                    b@.skip(cur as int),
                    ser_chars(s.skip(i as int)),
                )),
        decreases n - i,
    {
        proof {
            assert forall|s: Seq<char>|
                s.len() == count && valid_chars(s) && starts_with(
                    b@.skip(p1 as int),
                    ser_chars(s),
                ) implies starts_with(b@.skip(cur as int), ser_u32(s[i as int] as u32))
                && starts_with(b@.skip(cur as int + 4), ser_chars(s.skip(i as int + 1))) by {
                let rest = s.skip(i as int);
                assert(out@ == s.take(i as int) && starts_with(
                    b@.skip(cur as int),
                    ser_chars(rest),
                ));
                assert(rest.len() > 0);
                assert(rest[0] == s[i as int]);
                assert(rest.skip(1) =~= s.skip(i as int + 1));
                assert(ser_chars(rest) == ser_u32(rest[0] as u32) + ser_chars(rest.skip(1)));
                assert(ser_chars(rest) == ser_u32(s[i as int] as u32) + ser_chars(
                    s.skip(i as int + 1),
                ));
                assert(starts_with(
                    b@.skip(cur as int),
                    ser_u32(s[i as int] as u32) + ser_chars(s.skip(i as int + 1)),
                ));
                lemma_starts_with_concat(
                    b@.skip(cur as int),
                    ser_u32(s[i as int] as u32),
                    ser_chars(s.skip(i as int + 1)),
                );
                assert(b@.skip(cur as int).skip(4) =~= b@.skip(cur as int + 4));
            }
        }
        let (x, nxt) = match read_u32(b, cur) {
            Some(p) => p,
            None => {
                proof {
                    assert forall|s: Seq<char>|
                        s.len() <= usize::MAX && valid_chars(s) && starts_with(
                            b@.skip(pos as int),
                            ser_string(s),
                        ) implies false by {
                        lemma_starts_with_concat(
                            b@.skip(pos as int),
                            ser_u64(s.len() as u64),
                            ser_chars(s),
                        );
                        assert(count == s.len() as u64);
                        assert(s.len() == count);
                        assert(b@.skip(pos as int).skip(8) =~= b@.skip(pos as int + 8));
                        assert(starts_with(b@.skip(p1 as int), ser_chars(s)));
                        assert(starts_with(b@.skip(cur as int), ser_chars(s.skip(i as int))));
                        let rest = s.skip(i as int);
                        assert(rest.len() > 0);
                        assert(rest[0] == s[i as int]);
                        assert(ser_chars(rest) == ser_u32(rest[0] as u32) + ser_chars(
                            rest.skip(1),
                        ));
                        lemma_starts_with_concat(
                            b@.skip(cur as int),
                            ser_u32(rest[0] as u32),
                            ser_chars(rest.skip(1)),
                        );
                        assert(starts_with(b@.skip(cur as int), ser_u32(rest[0] as u32)));
                    }
                }
                return None;
            },
        };
        let c = match char::from_u32(x) {
            Some(c) => c,
            None => {
                proof {
                    assert forall|s: Seq<char>|
                        s.len() <= usize::MAX && valid_chars(s) && starts_with(
                            b@.skip(pos as int),
                            ser_string(s),
                        ) implies false by {
                        lemma_starts_with_concat(
                            b@.skip(pos as int),
                            ser_u64(s.len() as u64),
                            ser_chars(s),
                        );
                        assert(count == s.len() as u64);
                        assert(s.len() == count);
                        assert(b@.skip(pos as int).skip(8) =~= b@.skip(pos as int + 8));
                        assert(starts_with(b@.skip(p1 as int), ser_chars(s)));
                        assert(starts_with(b@.skip(cur as int), ser_chars(s.skip(i as int))));
                        let rest = s.skip(i as int);
                        assert(rest.len() > 0);
                        assert(rest[0] == s[i as int]);
                        assert(ser_chars(rest) == ser_u32(rest[0] as u32) + ser_chars(
                            rest.skip(1),
                        ));
                        lemma_starts_with_concat(
                            b@.skip(cur as int),
                            ser_u32(rest[0] as u32),
                            ser_chars(rest.skip(1)),
                        );
                        assert(starts_with(b@.skip(cur as int), ser_u32(rest[0] as u32)));
                        assert(valid_code_point(s[i as int]));
                        assert(x == s[i as int] as u32);
                    }
                }
                return None;
            },
        };
        let ghost prev = out@;
        out.push(c);
        proof {
            lemma_ser_chars_push(prev, c);
            assert(out@ == prev.push(c));
            assert(valid_code_point(c));
            assert(b@.subrange(p1 as int, nxt as int) =~= b@.subrange(p1 as int, cur as int)
                + b@.subrange(cur as int, nxt as int));
            assert(b@.subrange(p1 as int, nxt as int) == ser_chars(out@));
            assert forall|s: Seq<char>|
                #![trigger ser_chars(s)]
                s.len() == count && valid_chars(s) && starts_with(
                    b@.skip(p1 as int),
                    ser_chars(s),
                ) implies (out@ == s.take(i as int + 1) && starts_with(
                b@.skip(nxt as int),
                ser_chars(s.skip(i as int + 1)),
            )) by {
                assert(prev == s.take(i as int) && starts_with(
                    b@.skip(cur as int),
                    ser_chars(s.skip(i as int)),
                ));
                assert(starts_with(b@.skip(cur as int), ser_u32(s[i as int] as u32)));
                assert(valid_code_point(s[i as int]));
                assert(x == s[i as int] as u32);
                assert(c == s[i as int]);
                assert(s.take(i as int + 1) =~= s.take(i as int).push(s[i as int]));
            }
        }
        cur = nxt;
        i = i + 1;
    }
    proof {
        assert(b@.subrange(pos as int, cur as int) =~= b@.subrange(pos as int, p1 as int)
            + b@.subrange(p1 as int, cur as int));
        assert(b@.subrange(pos as int, cur as int) == ser_string(out@));
        assert forall|s: Seq<char>|
            s.len() <= usize::MAX && valid_chars(s) && starts_with(
                b@.skip(pos as int),
                ser_string(s),
            ) implies (out@ == s && cur == pos + ser_string(s).len()) by {
            lemma_starts_with_concat(
                b@.skip(pos as int),
                ser_u64(s.len() as u64),
                ser_chars(s),
            );
            assert(b@.skip(pos as int).skip(8) =~= b@.skip(pos as int + 8));
            assert(starts_with(b@.skip(p1 as int), ser_chars(s)));
            assert(s.len() as u64 == count);
            assert(s.len() == count);
            assert(out@ == s.take(s.len() as int));
            assert(s.take(s.len() as int) =~= s);
            assert(ser_chars(s) == ser_chars(out@));
        }
    }
    Some((out, cur))
}

/// Appends the encoding of a deck protocol state.
fn write_deck(out: &mut Vec<u8>, d: &Deck)
    ensures
        final(out)@ == old(out)@ + ser_deck(d@),
        d@.cards.len() <= usize::MAX,
        d@.revealed.len() <= usize::MAX,
{
    proof {
        crate::deck::lemma_deck_view_parts(d);
    }
    write_u32(out, d.card_count);
    write_deck_status(out, d.status);
    write_u32(out, d.participants);
    write_u32(out, d.shuffles_done);
    write_u32(out, d.reveals_done);
    write_hash_list(out, &d.cards);
    write_hash_list(out, &d.revealed);
    proof {
        assert(out@ =~= old(out)@ + ser_deck(d@));
    }
}

/// Appends the encoding of a betting protocol state.
fn write_poker(out: &mut Vec<u8>, p: &Poker)
    ensures
        final(out)@ == old(out)@ + ser_poker(p@),
        p@.players.len() <= usize::MAX,
{
    proof {
        crate::poker::lemma_poker_view_parts(p);
    }
    write_poker_status(out, p.status);
    write_stake_list(out, &p.players);
    proof {
        assert(out@ =~= old(out)@ + ser_poker(p@));
    }
}

/// Encodes a whole game. The result decodes to the identical logical value
/// through [`game_from_bytes`].
pub fn game_to_bytes(g: &Game) -> (r: Vec<u8>)
    ensures
        r@ == ser_game(g@),
        game_bounded(g@),
{
    proof {
        crate::game::lemma_game_view_parts(g);
    }
    let mut out: Vec<u8> = Vec::new();
    write_string(&mut out, g.name.as_str());
    write_u64(&mut out, g.id);
    write_game_status(&mut out, g.status);
    write_deck(&mut out, &g.deck);
    write_poker(&mut out, &g.poker);
    proof {
        assert(out@ =~= ser_game(g@));
    }
    out
}

/// A prefix that is an encoded deck decomposes into its fields.
#[verifier::rlimit(100)]
proof fn lemma_deck_prefix_parts(t: Seq<u8>, v: DeckModel)
    requires
        starts_with(t, ser_deck(v)),
    ensures
        starts_with(t, ser_u32(v.card_count)),
        starts_with(t.skip(4), ser_deck_status(v.status)),
        starts_with(t.skip(5), ser_u32(v.participants)),
        starts_with(t.skip(9), ser_u32(v.shuffles_done)),
        starts_with(t.skip(13), ser_u32(v.reveals_done)),
        starts_with(t.skip(17), ser_hash_list(v.cards)),
        starts_with(t.skip(17 + ser_hash_list(v.cards).len() as int), ser_hash_list(v.revealed)),
{
    let a1 = ser_u32(v.card_count);
    let a2 = a1 + ser_deck_status(v.status);
    let a3 = a2 + ser_u32(v.participants);
    let a4 = a3 + ser_u32(v.shuffles_done);
    let a5 = a4 + ser_u32(v.reveals_done);
    let a6 = a5 + ser_hash_list(v.cards);
    lemma_starts_with_concat(t, a6, ser_hash_list(v.revealed));
    lemma_starts_with_concat(t, a5, ser_hash_list(v.cards));
    lemma_starts_with_concat(t, a4, ser_u32(v.reveals_done));
    lemma_starts_with_concat(t, a3, ser_u32(v.shuffles_done));
    lemma_starts_with_concat(t, a2, ser_u32(v.participants));
    lemma_starts_with_concat(t, a1, ser_deck_status(v.status));
}

/// Reads a deck protocol state.
#[verifier::rlimit(100)]
fn read_deck(b: &Vec<u8>, pos: usize) -> (r: Option<(Deck, usize)>)
    requires
        pos <= b@.len(),
    ensures
        r matches Some((d, end)) ==> pos <= end <= b@.len() && b@.subrange(pos as int, end as int)
            == ser_deck(d@) && d@.cards.len() <= usize::MAX && d@.revealed.len() <= usize::MAX,
        forall|v: DeckModel|
            #![trigger ser_deck(v)]
            v.cards.len() <= usize::MAX && v.revealed.len() <= usize::MAX && starts_with(
                b@.skip(pos as int),
                ser_deck(v),
            ) ==> (r matches Some((d2, end2)) && d2@ == v && end2 == pos + ser_deck(v).len()),
{
    proof {
        assert forall|v: DeckModel|
            #![trigger ser_deck(v)]
            starts_with(b@.skip(pos as int), ser_deck(v)) implies (starts_with(
            b@.skip(pos as int),
            ser_u32(v.card_count),
        ) && starts_with(b@.skip(pos as int + 4), ser_deck_status(v.status)) && starts_with(
            b@.skip(pos as int + 5),
            ser_u32(v.participants),
        ) && starts_with(b@.skip(pos as int + 9), ser_u32(v.shuffles_done)) && starts_with(
            b@.skip(pos as int + 13),
            ser_u32(v.reveals_done),
        ) && starts_with(b@.skip(pos as int + 17), ser_hash_list(v.cards)) && starts_with(
            b@.skip(pos as int + 17 + ser_hash_list(v.cards).len() as int),
            ser_hash_list(v.revealed),
        )) by {
            let t = b@.skip(pos as int);
            lemma_deck_prefix_parts(t, v);
            assert(t.skip(4) =~= b@.skip(pos as int + 4));
            assert(t.skip(5) =~= b@.skip(pos as int + 5));
            assert(t.skip(9) =~= b@.skip(pos as int + 9));
            assert(t.skip(13) =~= b@.skip(pos as int + 13));
            assert(t.skip(17) =~= b@.skip(pos as int + 17));
            assert(t.skip(17 + ser_hash_list(v.cards).len() as int) =~= b@.skip(
                pos as int + 17 + ser_hash_list(v.cards).len() as int,
            ));
        }
    }
    let (card_count, p1) = match read_u32(b, pos) {
        Some(x) => x,
        None => {
            return None;
        },
    };
    let (status, p2) = match read_deck_status(b, p1) {
        Some(x) => x,
        None => {
            proof {
                assert forall|v: DeckModel|
                    v.cards.len() <= usize::MAX && v.revealed.len() <= usize::MAX && starts_with(
                        b@.skip(pos as int),
                        ser_deck(v),
                    ) implies false by {
                    assert(starts_with(b@.skip(p1 as int), ser_deck_status(v.status)));
                }
            }
            return None;
        },
    };
    let (participants, p3) = match read_u32(b, p2) {
        Some(x) => x,
        None => {
            proof {
                assert forall|v: DeckModel|
                    v.cards.len() <= usize::MAX && v.revealed.len() <= usize::MAX && starts_with(
                        b@.skip(pos as int),
                        ser_deck(v),
                    ) implies false by {
                    assert(starts_with(b@.skip(p2 as int), ser_u32(v.participants)));
                }
            }
            return None;
        },
    };
    let (shuffles_done, p4) = match read_u32(b, p3) {
        Some(x) => x,
        None => {
            proof {
                assert forall|v: DeckModel|
                    v.cards.len() <= usize::MAX && v.revealed.len() <= usize::MAX && starts_with(
                        b@.skip(pos as int),
                        ser_deck(v),
                    ) implies false by {
                    assert(starts_with(b@.skip(p3 as int), ser_u32(v.shuffles_done)));
                }
            }
            return None;
        },
    };
    let (reveals_done, p5) = match read_u32(b, p4) {
        Some(x) => x,
        None => {
            proof {
                assert forall|v: DeckModel|
                    v.cards.len() <= usize::MAX && v.revealed.len() <= usize::MAX && starts_with(
                        b@.skip(pos as int),
                        ser_deck(v),
                    ) implies false by {
                    assert(starts_with(b@.skip(p4 as int), ser_u32(v.reveals_done)));
                }
            }
            return None;
        },
    };
    let (cards, p6) = match read_hash_list(b, p5) {
        Some(x) => x,
        None => {
            proof {
                assert forall|v: DeckModel|
                    v.cards.len() <= usize::MAX && v.revealed.len() <= usize::MAX && starts_with(
                        b@.skip(pos as int),
                        ser_deck(v),
                    ) implies false by {
                    assert(starts_with(b@.skip(p5 as int), ser_hash_list(v.cards)));
                }
            }
            return None;
        },
    };
    let (revealed, p7) = match read_hash_list(b, p6) {
        Some(x) => x,
        None => {
            proof {
                assert forall|v: DeckModel|
                    v.cards.len() <= usize::MAX && v.revealed.len() <= usize::MAX && starts_with(
                        b@.skip(pos as int),
                        ser_deck(v),
                    ) implies false by {
                    assert(starts_with(b@.skip(p5 as int), ser_hash_list(v.cards)));
                    assert(cards@ == v.cards);
                    assert(p6 == p5 + ser_hash_list(v.cards).len());
                    assert(starts_with(b@.skip(p6 as int), ser_hash_list(v.revealed)));
                }
            }
            return None;
        },
    };
    let d = Deck {
        card_count,
        status,
        participants,
        shuffles_done,
        reveals_done,
        cards,
        revealed,
    };
    proof {
        crate::deck::lemma_deck_view_parts(&d);
        assert(b@.subrange(pos as int, p7 as int) =~= b@.subrange(pos as int, p1 as int)
            + b@.subrange(p1 as int, p2 as int) + b@.subrange(p2 as int, p3 as int) + b@.subrange(
            p3 as int,
            p4 as int,
        ) + b@.subrange(p4 as int, p5 as int) + b@.subrange(p5 as int, p6 as int) + b@.subrange(
            p6 as int,
            p7 as int,
        ));
        assert(b@.subrange(pos as int, p7 as int) == ser_deck(d@));
        assert forall|v: DeckModel|
            v.cards.len() <= usize::MAX && v.revealed.len() <= usize::MAX && starts_with(
                b@.skip(pos as int),
                ser_deck(v),
            ) implies (d@ =~= v && p7 == pos + ser_deck(v).len()) by {
            assert(starts_with(b@.skip(p1 as int), ser_deck_status(v.status)));
            assert(starts_with(b@.skip(p2 as int), ser_u32(v.participants)));
            assert(starts_with(b@.skip(p3 as int), ser_u32(v.shuffles_done)));
            assert(starts_with(b@.skip(p4 as int), ser_u32(v.reveals_done)));
            assert(starts_with(b@.skip(p5 as int), ser_hash_list(v.cards)));
            assert(cards@ == v.cards);
            assert(p6 == p5 + ser_hash_list(v.cards).len());
            assert(starts_with(b@.skip(p6 as int), ser_hash_list(v.revealed)));
        }
    }
    Some((d, p7))
}

/// A prefix that is an encoded betting state decomposes into its fields.
proof fn lemma_poker_prefix_parts(t: Seq<u8>, v: PokerModel)
    requires
        starts_with(t, ser_poker(v)),
    ensures
        starts_with(t, ser_poker_status(v.status)),
        starts_with(t.skip(1), ser_stake_list(v.players)),
{
    lemma_starts_with_concat(t, ser_poker_status(v.status), ser_stake_list(v.players));
    assert(t.skip(ser_poker_status(v.status).len() as int) =~= t.skip(1));
}

/// Reads a betting protocol state.
#[verifier::rlimit(100)]
fn read_poker(b: &Vec<u8>, pos: usize) -> (r: Option<(Poker, usize)>)
    requires
        pos <= b@.len(),
    ensures
        r matches Some((p, end)) ==> pos <= end <= b@.len() && b@.subrange(pos as int, end as int)
            == ser_poker(p@) && p@.players.len() <= usize::MAX,
        forall|v: PokerModel|
            #![trigger ser_poker(v)]
            v.players.len() <= usize::MAX && starts_with(b@.skip(pos as int), ser_poker(v)) ==> (
            r matches Some((p2, end2)) && p2@ == v && end2 == pos + ser_poker(v).len()),
{
    proof {
        assert forall|v: PokerModel|
            #![trigger ser_poker(v)]
            starts_with(b@.skip(pos as int), ser_poker(v)) implies (starts_with(
            b@.skip(pos as int),
            ser_poker_status(v.status),
        ) && starts_with(b@.skip(pos as int + 1), ser_stake_list(v.players))) by {
            let t = b@.skip(pos as int);
            lemma_poker_prefix_parts(t, v);
            assert(t.skip(1) =~= b@.skip(pos as int + 1));
        }
    }
    let (status, p1) = match read_poker_status(b, pos) {
        Some(x) => x,
        None => {
            return None;
        },
    };
    let (players, p2) = match read_stake_list(b, p1) {
        Some(x) => x,
        None => {
            proof {
                assert forall|v: PokerModel|
                    v.players.len() <= usize::MAX && starts_with(
                        b@.skip(pos as int),
                        ser_poker(v),
                    ) implies false by {
                    assert(starts_with(b@.skip(p1 as int), ser_stake_list(v.players)));
                }
            }
            return None;
        },
    };
    let p = Poker { status, players };
    proof {
        crate::poker::lemma_poker_view_parts(&p);
        assert(b@.subrange(pos as int, p2 as int) =~= b@.subrange(pos as int, p1 as int)
            + b@.subrange(p1 as int, p2 as int));
        assert(b@.subrange(pos as int, p2 as int) == ser_poker(p@));
        assert forall|v: PokerModel|
            v.players.len() <= usize::MAX && starts_with(
                b@.skip(pos as int),
                ser_poker(v),
            ) implies (p@ =~= v && p2 == pos + ser_poker(v).len()) by {
            assert(starts_with(b@.skip(p1 as int), ser_stake_list(v.players)));
        }
    }
    Some((p, p2))
}

/// A prefix that is an encoded game decomposes into its fields.
#[verifier::rlimit(100)]
proof fn lemma_game_prefix_parts(t: Seq<u8>, m: GameModel)
    requires
        starts_with(t, ser_game(m)),
    ensures
        starts_with(t, ser_string(m.name)),
        starts_with(t.skip(ser_string(m.name).len() as int), ser_u64(m.id)),
        starts_with(
            t.skip(ser_string(m.name).len() as int + 8),
            ser_game_status(m.status),
        ),
        starts_with(
            t.skip(
                ser_string(m.name).len() as int + 8 + ser_game_status(m.status).len() as int,
            ),
            ser_deck(m.deck),
        ),
        starts_with(
            t.skip(
                ser_string(m.name).len() as int + 8 + ser_game_status(m.status).len() as int
                    + ser_deck(m.deck).len() as int,
            ),
            ser_poker(m.poker),
        ),
{
    let a1 = ser_string(m.name);
    let a2 = a1 + ser_u64(m.id);
    let a3 = a2 + ser_game_status(m.status);
    let a4 = a3 + ser_deck(m.deck);
    lemma_starts_with_concat(t, a4, ser_poker(m.poker));
    lemma_starts_with_concat(t, a3, ser_deck(m.deck));
    lemma_starts_with_concat(t, a2, ser_game_status(m.status));
    lemma_starts_with_concat(t, a1, ser_u64(m.id));
}

/// Reads a game's name, room id and status.
#[verifier::rlimit(100)]
#[verifier::spinoff_prover]
fn read_game_head(bytes: &Vec<u8>) -> (r: Option<(String, u64, GameStatus, usize)>)
    ensures
        r matches Some((name, id, st, end)) ==> end <= bytes@.len() && bytes@.subrange(
            0,
            end as int,
        ) == ser_string(name@) + ser_u64(id) + ser_game_status(st) && name@.len() <= usize::MAX
            && valid_chars(name@),
        forall|m: GameModel|
            #![trigger ser_game(m)]
            game_bounded(m) && starts_with(bytes@.skip(0), ser_game(m)) ==> (r matches Some(
                (name2, id2, st2, end2),
            ) && name2@ == m.name && id2 == m.id && st2 == m.status && end2 == ser_string(
                m.name,
            ).len() + 8 + ser_game_status(m.status).len()),
{
    let (name, p1) = match read_string(bytes, 0) {
        Some(x) => x,
        None => {
            proof {
                assert forall|m: GameModel|
                    game_bounded(m) && starts_with(bytes@.skip(0), ser_game(m)) implies false by {
                    assert(bytes@.skip(0) =~= bytes@);
                    assert(bytes@.skip(0) =~= bytes@);
            lemma_game_prefix_parts(bytes@.skip(0), m);
                }
            }
            return None;
        },
    };
    let (id, p2) = match read_u64(bytes, p1) {
        Some(x) => x,
        None => {
            proof {
                assert forall|m: GameModel|
                    game_bounded(m) && starts_with(bytes@.skip(0), ser_game(m)) implies false by {
                    assert(bytes@.skip(0) =~= bytes@);
                    assert(bytes@.skip(0) =~= bytes@);
            lemma_game_prefix_parts(bytes@.skip(0), m);
                    assert(p1 == ser_string(m.name).len());
                    assert(starts_with(bytes@.skip(p1 as int), ser_u64(m.id)));
                }
            }
            return None;
        },
    };
    let (status, p3) = match read_game_status(bytes, p2) {
        Some(x) => x,
        None => {
            proof {
                assert forall|m: GameModel|
                    game_bounded(m) && starts_with(bytes@.skip(0), ser_game(m)) implies false by {
                    assert(bytes@.skip(0) =~= bytes@);
                    assert(bytes@.skip(0) =~= bytes@);
            lemma_game_prefix_parts(bytes@.skip(0), m);
                    assert(p1 == ser_string(m.name).len());
                    assert(p2 == p1 + 8);
                    assert(starts_with(bytes@.skip(p2 as int), ser_game_status(m.status)));
                }
            }
            return None;
        },
    };
    proof {
        assert(bytes@.subrange(0, p3 as int) == ser_string(name@) + ser_u64(id) + ser_game_status(
            status,
        )) by {
            assert(bytes@.subrange(0, p2 as int) =~= bytes@.subrange(0, p1 as int)
                + bytes@.subrange(p1 as int, p2 as int));
            assert(bytes@.subrange(0, p3 as int) =~= bytes@.subrange(0, p2 as int)
                + bytes@.subrange(p2 as int, p3 as int));
        }
        assert forall|m: GameModel|
            game_bounded(m) && starts_with(bytes@.skip(0), ser_game(m)) implies (name@ == m.name
            && id == m.id && status == m.status && p3 == ser_string(m.name).len() + 8
            + ser_game_status(m.status).len()) by {
            assert(bytes@.skip(0) =~= bytes@);
            lemma_game_prefix_parts(bytes@.skip(0), m);
            assert(p1 == ser_string(m.name).len());
            assert(p2 == p1 + 8);
            assert(starts_with(bytes@.skip(p2 as int), ser_game_status(m.status)));
        }
    }
    Some((name, id, status, p3))
}

/// Reads a whole game.
#[verifier::rlimit(100)]
#[verifier::spinoff_prover]
fn read_game(bytes: &Vec<u8>) -> (r: Option<(Game, usize)>)
    ensures
        r matches Some((g, end)) ==> end <= bytes@.len() && bytes@.subrange(0, end as int)
            == ser_game(g@) && game_bounded(g@),
        forall|m: GameModel|
            #![trigger ser_game(m)]
            game_bounded(m) && starts_with(bytes@.skip(0), ser_game(m)) ==> (r matches Some(
                (g2, end2),
            ) && g2@ == m && end2 == ser_game(m).len()),
{
    let (name, id, status, p3) = match read_game_head(bytes) {
        Some(x) => x,
        None => {
            return None;
        },
    };
    let (deck, p4) = match read_deck(bytes, p3) {
        Some(x) => x,
        None => {
            proof {
                assert forall|m: GameModel|
                    game_bounded(m) && starts_with(bytes@.skip(0), ser_game(m)) implies false by {
                    assert(bytes@.skip(0) =~= bytes@);
                    assert(bytes@.skip(0) =~= bytes@);
            lemma_game_prefix_parts(bytes@.skip(0), m);
                    assert(p3 == ser_string(m.name).len() + 8 + ser_game_status(m.status).len());
                    assert(starts_with(bytes@.skip(p3 as int), ser_deck(m.deck)));
                }
            }
            return None;
        },
    };
    let (poker, p5) = match read_poker(bytes, p4) {
        Some(x) => x,
        None => {
            proof {
                assert forall|m: GameModel|
                    game_bounded(m) && starts_with(bytes@.skip(0), ser_game(m)) implies false by {
                    assert(bytes@.skip(0) =~= bytes@);
                    assert(bytes@.skip(0) =~= bytes@);
            lemma_game_prefix_parts(bytes@.skip(0), m);
                    assert(p3 == ser_string(m.name).len() + 8 + ser_game_status(m.status).len());
                    assert(starts_with(bytes@.skip(p3 as int), ser_deck(m.deck)));
                    assert(deck@ == m.deck);
                    assert(p4 == p3 + ser_deck(m.deck).len());
                    assert(starts_with(bytes@.skip(p4 as int), ser_poker(m.poker)));
                }
            }
            return None;
        },
    };
    let g = Game { name, id, status, deck, poker };
    proof {
        crate::game::lemma_game_view_parts(&g);
        assert(bytes@.subrange(0, p5 as int) == ser_game(g@)) by {
            assert(bytes@.subrange(0, p4 as int) =~= bytes@.subrange(0, p3 as int)
                + bytes@.subrange(p3 as int, p4 as int));
            assert(bytes@.subrange(0, p5 as int) =~= bytes@.subrange(0, p4 as int)
                + bytes@.subrange(p4 as int, p5 as int));
        }
        assert(game_bounded(g@));
        assert forall|m: GameModel|
            game_bounded(m) && starts_with(bytes@.skip(0), ser_game(m)) implies (g@ =~= m && p5
            == ser_game(m).len()) by {
            assert(bytes@.skip(0) =~= bytes@);
            lemma_game_prefix_parts(bytes@.skip(0), m);
            assert(name@ == m.name && id == m.id && status == m.status);
            assert(p3 == ser_string(m.name).len() + 8 + ser_game_status(m.status).len());
            assert(starts_with(bytes@.skip(p3 as int), ser_deck(m.deck)));
            assert(deck@ == m.deck);
            assert(p4 == p3 + ser_deck(m.deck).len());
            assert(starts_with(bytes@.skip(p4 as int), ser_poker(m.poker)));
            assert(poker@ == m.poker);
            assert(p5 == p4 + ser_poker(m.poker).len());
        }
    }
    Some((g, p5))
}

/// Decodes a whole game. Exactly the encodings of well-formed, bounded
/// games are accepted: for every such game the original logical value comes
/// back, and whatever is accepted re-encodes to the given bytes.
#[verifier::rlimit(100)]
#[verifier::spinoff_prover]
pub fn game_from_bytes(bytes: &Vec<u8>) -> (r: Option<Game>)
    ensures
        r matches Some(g) ==> g@.wf() && game_bounded(g@) && ser_game(g@) == bytes@,
        forall|m: GameModel|
            #![trigger ser_game(m)]
            m.wf() && game_bounded(m) && bytes@ == ser_game(m) ==> (r matches Some(g2) && g2@
                == m),
{
    proof {
        assert forall|m: GameModel|
            #![trigger ser_game(m)]
            m.wf() && game_bounded(m) && bytes@ == ser_game(m) implies (starts_with(
            bytes@.skip(0),
            ser_game(m),
        ) && bytes@.len() == ser_game(m).len()) by {
            assert(bytes@.skip(0) =~= bytes@);
            assert(bytes@.subrange(0, ser_game(m).len() as int) =~= bytes@);
        }
    }
    let (g, end) = match read_game(bytes) {
        Some(x) => x,
        None => {
            return None;
        },
    };
    if end != bytes.len() {
        return None;
    }
    if !g.is_well_formed() {
        return None;
    }
    proof {
        assert(bytes@.subrange(0, end as int) =~= bytes@);
    }
    Some(g)
}

} // verus!
