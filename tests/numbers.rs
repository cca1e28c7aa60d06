use musicxml_midi::decimal::{parse_decimal, Decimal};
use musicxml_midi::midi_note_number;
use musicxml_midi::timing::{duration_ticks, tempo_micros};

fn whole(n: u64) -> Decimal {
    Decimal { negative: false, units: n, scale: 0 }
}

#[test]
fn midi_key_of_middle_c_and_g() {
    assert_eq!(midi_note_number('C', 4, 0), 60);
    assert_eq!(midi_note_number('G', 4, 0), 67);
    assert_eq!(midi_note_number('C', 4, 1), 61);
}

#[test]
fn midi_key_of_flats_and_other_octaves() {
    assert_eq!(midi_note_number('B', 3, -1), 58);
    assert_eq!(midi_note_number('A', 0, 0), 21);
    assert_eq!(midi_note_number('G', 9, 0), 127);
}

#[test]
fn tempo_to_microseconds() {
    assert_eq!(tempo_micros(&whole(120)), 500_000);
    assert_eq!(tempo_micros(&whole(60)), 1_000_000);
    let bpm = Decimal { negative: false, units: 1325, scale: 1 };
    assert_eq!(tempo_micros(&bpm), 452_830);
}

#[test]
fn durations_to_ticks() {
    assert_eq!(duration_ticks(&whole(1), &whole(1)), 480);
    assert_eq!(duration_ticks(&whole(3), &whole(2)), 720);
    assert_eq!(duration_ticks(&whole(1), &whole(3)), 160);
    assert_eq!(duration_ticks(&whole(1), &whole(7)), 69);
    let half = Decimal { negative: false, units: 5, scale: 1 };
    assert_eq!(duration_ticks(&half, &whole(1)), 240);
    let negative = Decimal { negative: true, units: 1, scale: 0 };
    assert_eq!(duration_ticks(&negative, &whole(1)), 0);
}

#[test]
fn decimals_are_read() {
    assert_eq!(parse_decimal(" 1.5 "), Some(Decimal { negative: false, units: 15, scale: 1 }));
    assert_eq!(parse_decimal("-2"), Some(Decimal { negative: true, units: 2, scale: 0 }));
    assert_eq!(parse_decimal("+007"), Some(Decimal { negative: false, units: 7, scale: 0 }));
    assert_eq!(parse_decimal("abc"), None);
    assert_eq!(parse_decimal("1."), None);
    assert_eq!(parse_decimal(".5"), None);
    assert_eq!(parse_decimal(""), None);
    assert_eq!(parse_decimal("1.2.3"), None);
    assert_eq!(parse_decimal("1234567890123456789"), None);
}

#[test]
fn alterations_round_to_semitones() {
    assert_eq!(Decimal { negative: false, units: 5, scale: 1 }.round(), 1);
    assert_eq!(Decimal { negative: true, units: 5, scale: 1 }.round(), -1);
    assert_eq!(Decimal { negative: false, units: 4, scale: 1 }.round(), 0);
    assert_eq!(Decimal { negative: true, units: 16, scale: 1 }.round(), -2);
}

#[test]
fn midi_key_above_the_midi_range_is_computed() {
    assert_eq!(midi_note_number('B', 9, 0), 131);
    assert_eq!(midi_note_number('G', 9, 128), 255);
}
