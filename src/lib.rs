//! Client side of a row-synchronisation protocol: an editor streams key edits
//! and transport commands over a byte stream; this library reassembles the
//! commands from arbitrarily fragmented reads, decodes them and applies them to
//! the local session state. Reading and writing the stream is left to the caller.

mod codec;
mod command;
mod frame;
mod rocket;

pub use codec::{be_bytes, be_u32, interpolation_byte, interpolation_of, lemma_be_round_trip};
pub use codec::{push_be_u32, Interpolation, Key};
pub use command::{command_bytes, field_u32, frame_len, get_track_bytes, is_frame};
pub use command::{is_supported, lemma_command_round_trip, parse_command, payload_len};
pub use command::{decode_command, encode_get_track, encode_set_row, payload_size, Command};
pub use command::{DELETE_KEY, GET_TRACK, PAUSE, SAVE_TRACKS, SET_KEY, SET_ROW, set_row_bytes};
pub use frame::{chunk_commands, chunk_pending, frames, parse_all, rest, wanted_of};
pub use frame::{is_prefix_of_frame, lemma_any_partition, lemma_frame_then, lemma_frames_split};
pub use frame::{lemma_incomplete, lemma_one_command_any_partition, lemma_rest_incomplete};
pub use frame::{lemma_two_frames, Reassembler, RocketState};
pub use rocket::{check_server_greeting, client_greeting, client_greeting_bytes, lemma_request_twice};
pub use rocket::{paused_after, paused_after_all, row_after, row_after_all, server_greeting_bytes};
pub use rocket::{track_names, with_track, Rocket, RocketErr, Track, SERVER_GREETING_LEN};
