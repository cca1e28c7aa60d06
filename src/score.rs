use vstd::prelude::*;
use crate::decimal::Decimal;

verus! {

/// A partwise score: its parts, each a list of measures.
pub struct ScorePartwise {
    pub version: Option<String>,
    pub identification: Option<Identification>,
    pub part_list: PartList,
    pub part: Vec<Part>,
}

/// Who wrote and encoded the score.
pub struct Identification {
    pub creator: Vec<Creator>,
    pub encoding: Option<Encoding>,
}

pub struct Creator {}

pub struct Encoding {
    pub supports: Vec<Supports>,
}

/// A feature that the encoding software declares it supports, or not.
pub struct Supports {
    pub element: String,
    pub kind: String,
    pub attribute: Option<String>,
    pub value: Option<String>,
}

pub struct PartList {}

/// One part: its measures, in performance order.
pub struct Part {
    pub id: String,
    pub measure: Vec<Measure>,
}

/// One measure: its items in document order.
pub struct Measure {
    pub number: String,
    pub id: Option<String>,
    pub implicit: Option<String>,
    pub non_controlling: Option<String>,
    pub text: Option<String>,
    pub width: Option<String>,
    pub content: Vec<MeasureItem>,
}

/// The items a measure is made of.
pub enum MeasureItem {
    Print(Print),
    Attributes(Attributes),
    Note(Note),
    Barline(Barline),
    Backup(Backup),
    Direction(Direction),
}

/// A direction; only its sound, which may set the tempo, is kept.
pub struct Direction {
    pub sound: Option<Sound>,
}

pub struct Sound {
    /// Quarter notes per minute.
    pub tempo: Option<Decimal>,
}

pub struct Print {
    pub system_layout: Option<SystemLayout>,
}

pub struct SystemLayout {
    pub system_margins: Option<SystemMargins>,
    pub top_system_distance: Option<String>,
}

pub struct SystemMargins {
    pub left_margin: String,
    pub right_margin: String,
}

/// Musical attributes; `divisions` is the number of duration units in a
/// quarter note, for this item and the ones after it.
pub struct Attributes {
    pub divisions: Option<Decimal>,
    pub key: Vec<Key>,
    pub time: Vec<Time>,
    pub clef: Vec<Clef>,
}

pub struct Key {
    pub fifths: Option<Decimal>,
}

pub struct Time {
    pub beats: String,
    pub beat_type: String,
}

pub struct Clef {
    pub sign: String,
    pub line: Option<Decimal>,
}

/// How a note is performed, after its first child.
#[derive(Clone, Copy, Debug, PartialEq, Eq, Structural)]
pub enum NoteCategory {
    Regular,
    Grace,
    Cue,
}

/// A note or a rest. Grace and cue notes keep only their category; their
/// `duration` is zero.
pub struct Note {
    pub category: NoteCategory,
    pub attack: Option<String>,
    pub color: Option<String>,
    pub default_x: Option<String>,
    pub default_y: Option<String>,
    pub dynamics: Option<String>,
    pub end_dynamics: Option<String>,
    pub pitch: Option<Pitch>,
    pub chord: Option<Chord>,
    pub duration: Decimal,
    pub voice: Option<String>,
    pub kind: Option<String>,
    pub stem: Option<String>,
    pub rest: Option<Rest>,
    pub tie: Option<Tie>,
}

pub struct Tie {
    pub kind: StartStop,
    pub time_only: Option<String>,
}

#[derive(Clone, Copy, Debug, PartialEq, Eq, Structural)]
pub enum StartStop {
    Start,
    Stop,
}

/// A pitch: a step from A to G, an octave from 0 to 9, and an alteration
/// in semitones.
pub struct Pitch {
    pub step: char,
    pub alter: Option<Decimal>,
    pub octave: u8,
}

pub struct Chord {}

pub struct Rest {
    pub measure: Option<String>,
}

pub struct Barline {
    pub location: Option<String>,
    pub bar_style: Option<String>,
}

/// Moves the time cursor back by `duration` divisions.
pub struct Backup {
    pub duration: Decimal,
}

} // verus!
