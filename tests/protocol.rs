use rocket_sync::{
    check_server_greeting, client_greeting, decode_command, encode_get_track, encode_set_row,
    payload_size, push_be_u32, Command, Interpolation, Key, Reassembler, Rocket, RocketState,
};

fn feed_one_byte_at_a_time(rocket: &mut Rocket, data: &[u8]) -> Vec<Command> {
    let mut out = Vec::new();
    let mut i = 0;
    while i < data.len() || rocket.wanted() == 0 {
        let take = rocket.wanted().min(1).min(data.len() - i);
        if let Some(c) = rocket.poll_events(&data[i..i + take]) {
            out.push(c);
        }
        i += take;
    }
    out
}

const SET_KEY_EXAMPLE: [u8; 14] = [0, 0, 0, 0, 1, 0, 0, 0, 10, 0x41, 0x20, 0x00, 0x00, 2];

#[test]
fn set_key_example_decodes_exactly() {
    let mut rocket = Rocket::new();
    let cs = rocket.feed(&SET_KEY_EXAMPLE);
    assert_eq!(cs.len(), 1);
    match cs[0] {
        Command::SetKey { track, key } => {
            assert_eq!(track, 1);
            assert_eq!(key.row, 10);
            assert_eq!(key.value_bits, 0x4120_0000);
            assert_eq!(f32::from_bits(key.value_bits), 10.0);
            assert_eq!(key.interpolation, Interpolation::Smooth);
        }
        other => panic!("unexpected command {:?}", other),
    }
    assert_eq!(rocket.wanted(), 1);
}

#[test]
fn one_byte_per_poll_matches_whole_delivery() {
    let mut whole = Rocket::new();
    let a = whole.feed(&SET_KEY_EXAMPLE);
    let mut split = Rocket::new();
    let b = feed_one_byte_at_a_time(&mut split, &SET_KEY_EXAMPLE);
    assert_eq!(a, b);
    assert_eq!(b.len(), 1);
}

#[test]
fn uneven_chunks_match_whole_delivery() {
    let mut whole = Rocket::new();
    let a = whole.feed(&SET_KEY_EXAMPLE);
    let mut split = Rocket::new();
    let mut b = Vec::new();
    b.extend(split.feed(&SET_KEY_EXAMPLE[..3]));
    assert!(b.is_empty());
    b.extend(split.feed(&SET_KEY_EXAMPLE[3..10]));
    assert!(b.is_empty());
    b.extend(split.feed(&SET_KEY_EXAMPLE[10..]));
    assert_eq!(a, b);
}

#[test]
fn poll_reads_payload_in_pieces() {
    let mut rocket = Rocket::new();
    assert_eq!(rocket.wanted(), 1);
    assert_eq!(rocket.poll_events(&[]), None);
    assert_eq!(rocket.poll_events(&[3]), None);
    assert_eq!(rocket.wanted(), 4);
    assert_eq!(rocket.poll_events(&[0, 0]), None);
    assert_eq!(rocket.wanted(), 2);
    assert_eq!(rocket.poll_events(&[]), None);
    assert_eq!(rocket.poll_events(&[1, 2]), None);
    assert_eq!(rocket.wanted(), 0);
    assert_eq!(rocket.get_row(), 0);
    assert_eq!(rocket.poll_events(&[]), Some(Command::SetRow { row: 0x102 }));
    assert_eq!(rocket.get_row(), 0x102);
    assert_eq!(rocket.wanted(), 1);
}

#[test]
fn two_commands_in_one_delivery_come_out_in_order() {
    let mut rocket = Rocket::new();
    let cs = rocket.feed(&[3, 0, 0, 0, 7, 4, 0]);
    assert_eq!(cs, vec![Command::SetRow { row: 7 }, Command::Pause { flag: 0 }]);
    assert_eq!(rocket.get_row(), 7);
    assert!(!rocket.is_paused());
}

#[test]
fn incoming_set_row_overrides_local_row() {
    let mut rocket = Rocket::new();
    rocket.set_row(42);
    rocket.feed(&[3, 0, 0, 0, 5]);
    assert_eq!(rocket.get_row(), 5);
    let request = rocket.set_row(10);
    assert_eq!(request, vec![3, 0, 0, 0, 10]);
    assert_eq!(rocket.get_row(), 10);
    rocket.feed(&[3, 0, 0]);
    assert_eq!(rocket.get_row(), 10);
    rocket.feed(&[0, 5]);
    assert_eq!(rocket.get_row(), 5);
}

#[test]
fn pause_flag_is_set_only_by_one() {
    let mut rocket = Rocket::new();
    assert!(rocket.is_paused());
    rocket.feed(&[4, 0]);
    assert!(!rocket.is_paused());
    rocket.feed(&[4, 1]);
    assert!(rocket.is_paused());
    rocket.feed(&[4, 2]);
    assert!(!rocket.is_paused());
    rocket.feed(&[4, 1, 4, 255]);
    assert!(!rocket.is_paused());
}

#[test]
fn interpolation_bytes_fall_back_to_step() {
    assert_eq!(Interpolation::from(0), Interpolation::Step);
    assert_eq!(Interpolation::from(1), Interpolation::Linear);
    assert_eq!(Interpolation::from(2), Interpolation::Smooth);
    assert_eq!(Interpolation::from(3), Interpolation::Ramp);
    assert_eq!(Interpolation::from(7), Interpolation::Step);
    assert_eq!(Interpolation::from(255), Interpolation::Step);
    let c = decode_command(&[0, 0, 0, 0, 2, 0, 0, 0, 3, 0, 0, 0, 0, 7]);
    assert_eq!(
        c,
        Command::SetKey {
            track: 2,
            key: Key { row: 3, value_bits: 0, interpolation: Interpolation::Step }
        }
    );
}

#[test]
fn requesting_a_track_twice_sends_once() {
    let mut rocket = Rocket::new();
    let first = rocket.get_track("x");
    assert_eq!(first, Some(vec![2, 0, 0, 0, 1, b'x']));
    let second = rocket.get_track("x");
    assert_eq!(second, None);
    assert_eq!(rocket.track_count(), 1);
    let i = rocket.find_track("x").unwrap();
    assert_eq!(rocket.track(i).name, "x");
    assert!(rocket.track(i).keys.is_empty());
    assert_eq!(rocket.find_track("y"), None);
}

#[test]
fn tracks_keep_order_of_creation() {
    let mut rocket = Rocket::new();
    assert!(rocket.get_track("test").is_some());
    assert!(rocket.get_track("test2").is_some());
    assert!(rocket.get_track("a:test2").is_some());
    assert!(rocket.get_track("test2").is_none());
    assert_eq!(rocket.track_count(), 3);
    assert_eq!(rocket.find_track("test"), Some(0));
    assert_eq!(rocket.find_track("test2"), Some(1));
    assert_eq!(rocket.find_track("a:test2"), Some(2));
}

#[test]
fn get_track_request_counts_utf8_bytes() {
    assert_eq!(encode_get_track("é"), vec![2, 0, 0, 0, 2, 0xc3, 0xa9]);
    assert_eq!(encode_get_track(""), vec![2, 0, 0, 0, 0]);
}

#[test]
fn set_row_request_is_big_endian() {
    assert_eq!(encode_set_row(0x0102_0304), vec![3, 1, 2, 3, 4]);
    assert_eq!(encode_set_row(u32::MAX), vec![3, 255, 255, 255, 255]);
    let mut out = vec![9];
    push_be_u32(&mut out, 0xa0b0_c0d0);
    assert_eq!(out, vec![9, 0xa0, 0xb0, 0xc0, 0xd0]);
}

#[test]
fn encoded_fields_decode_back() {
    for row in [0u32, 1, 10, 0x0102_0304, u32::MAX] {
        assert_eq!(decode_command(&encode_set_row(row)), Command::SetRow { row });
    }
    let mut bytes = vec![0];
    push_be_u32(&mut bytes, 0xdead_beef);
    push_be_u32(&mut bytes, 77);
    push_be_u32(&mut bytes, (-2.5f32).to_bits());
    bytes.push(3);
    match decode_command(&bytes) {
        Command::SetKey { track, key } => {
            assert_eq!(track, 0xdead_beef);
            assert_eq!(key.row, 77);
            assert_eq!(f32::from_bits(key.value_bits), -2.5);
            assert_eq!(key.interpolation, Interpolation::Ramp);
        }
        other => panic!("unexpected command {:?}", other),
    }
    let mut del = vec![1];
    push_be_u32(&mut del, 4);
    push_be_u32(&mut del, 0x0001_0000);
    assert_eq!(decode_command(&del), Command::DeleteKey { track: 4, row: 65536 });
    assert_eq!(decode_command(&[4, 9]), Command::Pause { flag: 9 });
    assert_eq!(decode_command(&[5]), Command::SaveTracks);
}

#[test]
fn unknown_opcode_carries_no_payload() {
    let mut rocket = Rocket::new();
    let cs = rocket.feed(&[9, 5, 2, 3, 0, 0, 0, 1]);
    assert_eq!(
        cs,
        vec![
            Command::Unknown { opcode: 9 },
            Command::SaveTracks,
            Command::Unknown { opcode: 2 },
            Command::SetRow { row: 1 },
        ]
    );
    assert_eq!(rocket.get_row(), 1);
    assert_eq!(rocket.track_count(), 0);
}

#[test]
fn delete_key_leaves_state_alone() {
    let mut rocket = Rocket::new();
    let cs = rocket.feed(&[1, 0, 0, 0, 1, 0, 0, 0, 2]);
    assert_eq!(cs, vec![Command::DeleteKey { track: 1, row: 2 }]);
    assert_eq!(rocket.get_row(), 0);
    assert!(rocket.is_paused());
}

#[test]
fn opcode_table_sizes() {
    assert_eq!(payload_size(0), 13);
    assert_eq!(payload_size(1), 8);
    assert_eq!(payload_size(2), 0);
    assert_eq!(payload_size(3), 4);
    assert_eq!(payload_size(4), 1);
    assert_eq!(payload_size(5), 0);
    assert_eq!(payload_size(200), 0);
}

#[test]
fn reassembler_states() {
    let mut r = Reassembler::new();
    assert_eq!(r.state(), RocketState::NewCommand);
    assert_eq!(r.step(&[0]), None);
    assert_eq!(r.state(), RocketState::IncompleteCommand(13));
    assert_eq!(r.step(&SET_KEY_EXAMPLE[1..14]), None);
    assert_eq!(r.state(), RocketState::CompleteCommand);
    assert_eq!(r.wanted(), 0);
    assert!(r.step(&[]).is_some());
    assert_eq!(r.state(), RocketState::NewCommand);
    assert_eq!(r.feed(&[5, 4]), vec![Command::SaveTracks]);
    assert_eq!(r.state(), RocketState::IncompleteCommand(1));
}

#[test]
fn greeting_exchange() {
    assert_eq!(client_greeting(), b"hello, synctracker!".to_vec());
    assert!(check_server_greeting(b"hello, demo!").is_ok());
    assert!(check_server_greeting(b"hello, demo?").is_err());
    assert!(check_server_greeting(b"hello, demo").is_err());
    assert!(check_server_greeting(b"").is_err());
}
