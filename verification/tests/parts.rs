use scramble_core::codec::{
    is_finish_frame, opponent_msg, parse_client, peer_gone_msg, points_msg, rooms_msg, start_msg,
    usize_to_dec, ClientMsg,
};
use scramble_core::codec::finish_msg;
use scramble_core::ledger::Ledger;
use scramble_core::outcome::{compute_outcome, Outcome};
use scramble_core::registry::Registry;
use scramble_core::session::cleanup_room;
use scramble_core::words::{dedup_from, parse_round, split_commas_vec, trim_bytes};

#[test]
fn decimal_rendering() {
    assert_eq!(usize_to_dec(0), b"0".to_vec());
    assert_eq!(usize_to_dec(7), b"7".to_vec());
    assert_eq!(usize_to_dec(42), b"42".to_vec());
    assert_eq!(usize_to_dec(12345), b"12345".to_vec());
}

#[test]
fn score_frames() {
    assert_eq!(points_msg(0), b"p:0".to_vec());
    assert_eq!(points_msg(3), b"p:3".to_vec());
    assert_eq!(opponent_msg(17), b"o:17".to_vec());
    assert_eq!(peer_gone_msg(), b"f:x".to_vec());
    assert_eq!(start_msg(&b"P".to_vec()), b"s:P".to_vec());
}

#[test]
fn finish_frames_by_outcome() {
    assert_eq!(finish_msg(Outcome::Win), b"f:u".to_vec());
    assert_eq!(finish_msg(Outcome::Loss), b"f:o".to_vec());
    assert_eq!(finish_msg(Outcome::Draw), b"f:d".to_vec());
    assert!(is_finish_frame(&b"f:d".to_vec()));
    assert!(is_finish_frame(&b"f:x".to_vec()));
    assert!(!is_finish_frame(&b"o:3".to_vec()));
    assert!(!is_finish_frame(&b"f".to_vec()));
}

#[test]
fn rooms_snapshot_frame() {
    let counts = vec![0u8, 1, 2, 0];
    assert_eq!(rooms_msg(&counts), b"a:0120".to_vec());
}

#[test]
fn client_frame_parsing() {
    assert!(matches!(parse_client(&b"a".to_vec()), ClientMsg::Select(0)));
    assert!(matches!(parse_client(&b"b".to_vec()), ClientMsg::Select(1)));
    assert!(matches!(parse_client(&b"c".to_vec()), ClientMsg::Select(2)));
    assert!(matches!(parse_client(&b"d".to_vec()), ClientMsg::Select(3)));
    assert!(matches!(parse_client(&b"r".to_vec()), ClientMsg::Refresh));
    match parse_client(&b"g:cat".to_vec()) {
        ClientMsg::Guess(w) => assert_eq!(w, b"cat".to_vec()),
        _ => panic!("guess frame not recognised"),
    }
    match parse_client(&b"g:".to_vec()) {
        ClientMsg::Guess(w) => assert_eq!(w, Vec::<u8>::new()),
        _ => panic!("empty guess not recognised"),
    }
    assert!(matches!(parse_client(&b"e".to_vec()), ClientMsg::Other));
    assert!(matches!(parse_client(&b"ab".to_vec()), ClientMsg::Other));
    assert!(matches!(parse_client(&b"".to_vec()), ClientMsg::Other));
}

#[test]
fn trimming_and_splitting() {
    assert_eq!(trim_bytes(&b"  hi \n".to_vec()), b"hi".to_vec());
    assert_eq!(trim_bytes(&b"\r\n\t".to_vec()), Vec::<u8>::new());
    assert_eq!(trim_bytes(&b"x".to_vec()), b"x".to_vec());
    let pieces = split_commas_vec(&b"P,cat,dog".to_vec());
    assert_eq!(pieces.len(), 3);
    assert_eq!(pieces[0], b"P".to_vec());
    assert_eq!(pieces[1], b"cat".to_vec());
    assert_eq!(pieces[2], b"dog".to_vec());
    let lone = split_commas_vec(&b"solo".to_vec());
    assert_eq!(lone.len(), 1);
    assert_eq!(lone[0], b"solo".to_vec());
    let empty = split_commas_vec(&Vec::new());
    assert_eq!(empty.len(), 1);
    assert_eq!(empty[0], Vec::<u8>::new());
}

#[test]
fn word_set_deduplication() {
    let pieces = vec![
        b"P".to_vec(),
        b"cat".to_vec(),
        b"dog".to_vec(),
        b"cat".to_vec(),
    ];
    let words = dedup_from(&pieces, 1);
    assert_eq!(words.len(), 2);
    assert!(words.contains(&b"cat".to_vec()));
    assert!(words.contains(&b"dog".to_vec()));
}

#[test]
fn round_parsing() {
    let data = parse_round(&b" P,cat,dog \n".to_vec());
    assert_eq!(data.prompt, b"P".to_vec());
    assert_eq!(data.words.len(), 2);
    assert!(data.words.contains(&b"cat".to_vec()));
    assert!(data.words.contains(&b"dog".to_vec()));
}

#[test]
fn outcome_is_pure_comparison() {
    assert_eq!(compute_outcome(5, 3), (Outcome::Win, Outcome::Loss));
    assert_eq!(compute_outcome(3, 5), (Outcome::Loss, Outcome::Win));
    assert_eq!(compute_outcome(4, 4), (Outcome::Draw, Outcome::Draw));
    assert_eq!(compute_outcome(0, 0), (Outcome::Draw, Outcome::Draw));
}

#[test]
fn ledger_occupancy_bounds() {
    let mut led = Ledger::new();
    assert_eq!(led.snapshot(), vec![0u8, 0, 0, 0]);
    assert_eq!(led.try_claim(0), Some(1));
    assert_eq!(led.try_claim(0), Some(2));
    assert_eq!(led.try_claim(0), None);
    assert_eq!(led.snapshot(), vec![2u8, 0, 0, 0]);
    led.release(0);
    assert_eq!(led.snapshot(), vec![0u8, 0, 0, 0]);
    assert_eq!(led.try_claim(0), Some(1));
}

#[test]
fn cleanup_releases_unconditionally() {
    let mut led = Ledger::new();
    let mut reg = Registry::new();
    // a claimed seat with no match entry is still released by cleanup
    led.try_claim(3);
    assert_eq!(led.snapshot(), vec![0u8, 0, 0, 1]);
    cleanup_room(&mut led, &mut reg, 3);
    assert_eq!(led.snapshot(), vec![0u8, 0, 0, 0]);
    assert!(!reg.has_entry(3));
    // a second cleanup of the same room is a no-op
    cleanup_room(&mut led, &mut reg, 3);
    assert_eq!(led.snapshot(), vec![0u8, 0, 0, 0]);
    assert!(!reg.has_entry(3));
}

#[test]
fn registry_seat_order() {
    let mut reg = Registry::new();
    assert!(!reg.has_entry(2));
    assert_eq!(reg.join(2), Some(1));
    assert!(reg.has_entry(2));
    assert!(!reg.both_seated(2));
    assert_eq!(reg.join(2), Some(2));
    assert!(reg.both_seated(2));
    assert_eq!(reg.join(2), None);
}

#[test]
fn round_identifier_in_provider_range() {
    let mut reg = Registry::new();
    assert_eq!(reg.assign_round(1), None);
    reg.join(1);
    let id = reg.assign_round(1).expect("a live match gets an identifier");
    assert!((1..=49).contains(&id));
    assert_eq!(reg.assign_round(1), Some(id));
}
