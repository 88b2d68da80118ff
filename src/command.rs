//! The protocol's commands: the opcode table, decoding of a complete incoming
//! command and encoding of the outgoing requests.

use crate::codec::{
    be_bytes, be_u32, interpolation_byte, interpolation_of, lemma_be_round_trip, push_be_u32,
    read_be_u32, Interpolation, Key,
};
use vstd::prelude::*;
use vstd::string::StringSliceAdditionalSpecFns;

verus! {

pub const SET_KEY: u8 = 0;
pub const DELETE_KEY: u8 = 1;
pub const GET_TRACK: u8 = 2;
pub const SET_ROW: u8 = 3;
pub const PAUSE: u8 = 4;
pub const SAVE_TRACKS: u8 = 5;

/// Number of payload bytes that follow an incoming opcode; an unrecognised
/// opcode carries none.
pub open spec fn payload_len(op: u8) -> nat {
    if op == SET_KEY {
        13
    } else if op == DELETE_KEY {
        8
    } else if op == SET_ROW {
        4
    } else if op == PAUSE {
        1
    } else {
        0
    }
}

/// Size of a whole command that starts with `op`, opcode included.
pub open spec fn frame_len(op: u8) -> nat {
    1 + payload_len(op)
}

/// `f` holds exactly one complete command.
pub open spec fn is_frame(f: Seq<u8>) -> bool {
    f.len() >= 1 && f.len() == frame_len(f[0])
}

/// Executable form of the opcode table.
pub fn payload_size(op: u8) -> (r: usize)
    ensures
        r == payload_len(op),
{
    match op {
        SET_KEY => 13,
        DELETE_KEY => 8,
        SET_ROW => 4,
        PAUSE => 1,
        _ => 0,
    }
}

/// A decoded incoming command.
#[derive(Debug, Clone, Copy, PartialEq, Eq, Structural)]
pub enum Command {
    SetKey { track: u32, key: Key },
    DeleteKey { track: u32, row: u32 },
    SetRow { row: u32 },
    Pause { flag: u8 },
    SaveTracks,
    Unknown { opcode: u8 },
}

/// The `u32` field of frame `f` that starts at byte `at`.
pub open spec fn field_u32(f: Seq<u8>, at: int) -> u32 {
    be_u32(f.subrange(at, at + 4)) as u32
}

/// The command that a complete frame encodes.
pub open spec fn parse_command(f: Seq<u8>) -> Command {
    let op = f[0];
    if op == SET_KEY {
        Command::SetKey {
            track: field_u32(f, 1),
            key: Key {
                row: field_u32(f, 5),
                value_bits: field_u32(f, 9),
                interpolation: interpolation_of(f[13]),
            },
        }
    } else if op == DELETE_KEY {
        Command::DeleteKey { track: field_u32(f, 1), row: field_u32(f, 5) }
    } else if op == SET_ROW {
        Command::SetRow { row: field_u32(f, 1) }
    } else if op == PAUSE {
        Command::Pause { flag: f[1] }
    } else if op == SAVE_TRACKS {
        Command::SaveTracks
    } else {
        Command::Unknown { opcode: op }
    }
}

/// The bytes by which the editor sends a command.
pub open spec fn command_bytes(c: Command) -> Seq<u8> {
    match c {
        Command::SetKey { track, key } => seq![SET_KEY] + be_bytes(track) + be_bytes(key.row)
            + be_bytes(key.value_bits) + seq![interpolation_byte(key.interpolation)],
        Command::DeleteKey { track, row } => seq![DELETE_KEY] + be_bytes(track) + be_bytes(row),
        Command::SetRow { row } => seq![SET_ROW] + be_bytes(row),
        Command::Pause { flag } => seq![PAUSE, flag],
        Command::SaveTracks => seq![SAVE_TRACKS],
        Command::Unknown { opcode } => seq![opcode],
    }
}

/// A command of one of the protocol's own opcodes, not an unrecognised one.
pub open spec fn is_supported(c: Command) -> bool {
    !(c is Unknown)
}

proof fn lemma_field_of_bytes(pre: Seq<u8>, n: u32, post: Seq<u8>)
    ensures
        field_u32(pre + be_bytes(n) + post, pre.len() as int) == n,
{
    lemma_be_round_trip(n);
    assert((pre + be_bytes(n) + post).subrange(pre.len() as int, pre.len() as int + 4) =~= be_bytes(n));
}

/// Encoding a supported command and decoding the bytes gives the command back,
/// every `u32` and `u8` field exactly; the bytes are one complete frame.
pub proof fn lemma_command_round_trip(c: Command)
    requires
        is_supported(c),
    ensures
        is_frame(command_bytes(c)),
        parse_command(command_bytes(c)) == c,
{
    let b = command_bytes(c);
    match c {
        Command::SetKey { track, key } => {
            let s0 = seq![SET_KEY];
            let s1 = s0 + be_bytes(track);
            let s2 = s1 + be_bytes(key.row);
            let last = seq![interpolation_byte(key.interpolation)];
            lemma_field_of_bytes(s0, track, be_bytes(key.row) + be_bytes(key.value_bits) + last);
            lemma_field_of_bytes(s1, key.row, be_bytes(key.value_bits) + last);
            lemma_field_of_bytes(s2, key.value_bits, last);
            assert(b =~= s0 + be_bytes(track) + (be_bytes(key.row) + be_bytes(key.value_bits) + last));
            assert(b =~= s1 + be_bytes(key.row) + (be_bytes(key.value_bits) + last));
            assert(b[13] == interpolation_byte(key.interpolation));
        },
        Command::DeleteKey { track, row } => {
            let s0 = seq![DELETE_KEY];
            lemma_field_of_bytes(s0, track, be_bytes(row));
            lemma_field_of_bytes(s0 + be_bytes(track), row, Seq::empty());
            assert(b =~= s0 + be_bytes(track) + be_bytes(row) + Seq::empty());
        },
        Command::SetRow { row } => {
            lemma_field_of_bytes(seq![SET_ROW], row, Seq::empty());
            assert(b =~= seq![SET_ROW] + be_bytes(row) + Seq::empty());
        },
        _ => {},
    }
}

/// Decodes one complete frame.
pub fn decode_command(f: &[u8]) -> (c: Command)
    requires
        is_frame(f@),
    ensures
        c == parse_command(f@),
{
    let op = f[0];
    match op {
        SET_KEY => {
            let track = read_be_u32(f, 1);
            let row = read_be_u32(f, 5);
            let value_bits = read_be_u32(f, 9);
            let interpolation = Interpolation::from(f[13]);
            Command::SetKey { track, key: Key { row, value_bits, interpolation } }
        },
        DELETE_KEY => {
            let track = read_be_u32(f, 1);
            let row = read_be_u32(f, 5);
            Command::DeleteKey { track, row }
        },
        SET_ROW => Command::SetRow { row: read_be_u32(f, 1) },
        PAUSE => Command::Pause { flag: f[1] },
        SAVE_TRACKS => Command::SaveTracks,
        _ => Command::Unknown { opcode: op },
    }
}

/// The request for the track called `name`: opcode, byte length of the name,
/// the name's UTF-8 bytes.
pub open spec fn get_track_bytes(name: Seq<u8>) -> Seq<u8> {
    seq![GET_TRACK] + be_bytes(name.len() as u32) + name
}

/// The request that moves the editor to `row`.
pub open spec fn set_row_bytes(row: u32) -> Seq<u8> {
    seq![SET_ROW] + be_bytes(row)
}

/// Encodes the request for the track called `name`.
pub fn encode_get_track(name: &str) -> (r: Vec<u8>)
    requires
        name.spec_bytes().len() <= u32::MAX,
    ensures
        r@ == get_track_bytes(name.spec_bytes()),
{
    let bytes = name.as_bytes();
    let mut out: Vec<u8> = Vec::new();
    out.push(GET_TRACK);
    push_be_u32(&mut out, bytes.len() as u32);
    let mut i: usize = 0;
    while i < bytes.len()
        invariant
            bytes@ == name.spec_bytes(),
            i <= bytes@.len(),
            out@ == seq![GET_TRACK] + be_bytes(bytes@.len() as u32) + bytes@.subrange(0, i as int),
        decreases bytes@.len() - i,
    {
        out.push(bytes[i]);
        i = i + 1;
        assert(out@ =~= seq![GET_TRACK] + be_bytes(bytes@.len() as u32) + bytes@.subrange(0, i as int));
    }
    assert(bytes@.subrange(0, i as int) =~= bytes@);
    out
}

/// Encodes the request that moves the editor to `row`.
pub fn encode_set_row(row: u32) -> (r: Vec<u8>)
    ensures
        r@ == set_row_bytes(row),
{
    let mut out: Vec<u8> = Vec::new();
    out.push(SET_ROW);
    push_be_u32(&mut out, row);
    assert(out@ =~= set_row_bytes(row));
    out
}

} // verus!
