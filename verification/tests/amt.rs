//! Arrival-time tokens.

use maolan_generate::text_to_midi::amt::{
    decode_event_triplet, encode_event, events_to_tokens, is_control_token, is_duration_token,
    is_note_token, is_rest_token, is_special_token, is_time_token, tokens_to_events, with_separator,
    AmtEvent, CONTROL_OFFSET, DUR_OFFSET, MAX_DUR, MAX_NOTE, MAX_TIME, NOTE_OFFSET, REST, SEPARATOR,
    SPECIAL_OFFSET, TIME_OFFSET, VOCAB_SIZE,
};

#[test]
fn vocabulary_layout_matches_anticipation() {
    assert_eq!(MAX_TIME, 10_000);
    assert_eq!(MAX_DUR, 1_000);
    assert_eq!(MAX_NOTE, 16_512);
    assert_eq!(NOTE_OFFSET, 11_000);
    assert_eq!(REST, 27_512);
    assert_eq!(CONTROL_OFFSET, 27_513);
    assert_eq!(SPECIAL_OFFSET, 55_025);
    assert_eq!(VOCAB_SIZE, 55_028);
}

#[test]
fn round_trip_event() {
    let event = AmtEvent { time: 1234, duration: 100, note_id: 60 };
    let triplet = encode_event(&event);
    assert_eq!(triplet[0], TIME_OFFSET + 1234);
    assert_eq!(triplet[1], DUR_OFFSET + 100);
    assert_eq!(triplet[2], NOTE_OFFSET + 60);
    let decoded = decode_event_triplet(triplet).expect("valid event");
    assert_eq!(decoded, event);
}

#[test]
fn decode_ignores_special_tokens() {
    assert!(decode_event_triplet([SEPARATOR, SEPARATOR, SEPARATOR]).is_none());
    assert!(decode_event_triplet([REST, REST, REST]).is_none());
    assert!(decode_event_triplet([
        CONTROL_OFFSET,
        CONTROL_OFFSET + MAX_TIME,
        CONTROL_OFFSET + MAX_TIME + MAX_DUR
    ])
    .is_none());
}

#[test]
fn tokens_to_events_filters_non_events() {
    let tokens = vec![
        TIME_OFFSET,
        DUR_OFFSET + 50,
        NOTE_OFFSET + 60,
        SEPARATOR,
        SEPARATOR,
        SEPARATOR,
        TIME_OFFSET + 10,
        DUR_OFFSET + 50,
        NOTE_OFFSET + 64,
    ];
    let events = tokens_to_events(&tokens);
    assert_eq!(events.len(), 2);
    assert_eq!(events[0].pitch(), 60);
    assert_eq!(events[1].pitch(), 64);
}

#[test]
fn every_token_is_of_one_kind() {
    for token in 0..VOCAB_SIZE {
        let kinds = [
            is_time_token(token),
            is_duration_token(token),
            is_note_token(token),
            is_rest_token(token),
            is_control_token(token),
            is_special_token(token),
        ];
        assert_eq!(kinds.iter().filter(|kind| **kind).count(), 1, "token {token}");
    }
}

#[test]
fn sequences_come_back() {
    let events: Vec<AmtEvent> = (0..50)
        .map(|i| AmtEvent { time: i * 199, duration: i * 19, note_id: i * 330 })
        .collect();
    let mut tokens = events_to_tokens(&events);
    assert_eq!(tokens.len(), 150);
    assert_eq!(tokens_to_events(&tokens), events);
    with_separator(&mut tokens);
    assert_eq!(tokens.len(), 153);
    assert_eq!(&tokens[150..], &[SEPARATOR; 3]);
    assert_eq!(tokens_to_events(&tokens), events);
    tokens.push(5);
    assert_eq!(tokens_to_events(&tokens), events);
}

#[test]
fn notes_hold_instrument_and_pitch() {
    let event = AmtEvent { time: 0, duration: 1, note_id: 128 * 128 + 36 };
    assert_eq!((event.instrument(), event.pitch()), (128, 36));
}
