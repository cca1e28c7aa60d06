use vstd::prelude::*;

verus! {

/// Semitone offset of a note step above C; any other character counts as C.
pub open spec fn semitone(step: char) -> int {
    if step == 'C' {
        0
    } else if step == 'D' {
        2
    } else if step == 'E' {
        4
    } else if step == 'F' {
        5
    } else if step == 'G' {
        7
    } else if step == 'A' {
        9
    } else if step == 'B' {
        11
    } else {
        0
    }
}

/// Whether `step` names one of the seven note steps A to G.
pub open spec fn is_step(step: char) -> bool {
    step == 'A' || step == 'B' || step == 'C' || step == 'D' || step == 'E' || step == 'F'
        || step == 'G'
}

/// MIDI key number of a pitch: middle C (C4) is 60.
pub open spec fn midi_key(step: char, octave: int, alter: int) -> int {
    (octave + 1) * 12 + semitone(step) + alter
}

/// Semitones of `step` above C.
pub fn step_semitone(step: char) -> (r: u8)
    ensures
        r == semitone(step),
{
    match step {
        'C' => 0,
        'D' => 2,
        'E' => 4,
        'F' => 5,
        'G' => 7,
        'A' => 9,
        'B' => 11,
        _ => 0,
    }
}

/// MIDI key number of `step` in `octave`, raised by `alter` semitones.
pub fn midi_note_number(step: char, octave: u8, alter: i32) -> (r: u8)
    requires
        0 <= midi_key(step, octave as int, alter as int) <= 255,
    ensures
        r == midi_key(step, octave as int, alter as int),
{
    ((octave as i32 + 1) * 12 + step_semitone(step) as i32 + alter) as u8
}

} // verus!
