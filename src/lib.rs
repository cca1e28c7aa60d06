//! Turns a partwise MusicXML score into a tick-accurate, delta-encoded
//! stream of note and tempo events.

pub mod decimal;
pub mod pitch;
pub mod timing;
pub mod timeline;
pub mod score;
pub mod schedule;
pub mod fields;
pub mod tokens;
pub mod builder;
pub mod convert;
pub mod xml;

pub use pitch::midi_note_number;
pub use score::{
    Attributes, Backup, Barline, Chord, Clef, Creator, Direction, Encoding, Identification, Key,
    Measure, MeasureItem, Note, NoteCategory, Part, PartList, Pitch, Print, Rest, ScorePartwise,
    Sound, StartStop, Supports, SystemLayout, SystemMargins, Tie, Time,
};
pub use timeline::{EventKind, TrackEvent};
pub use schedule::{ScheduleError, ScheduledTrack, schedule};
pub use convert::{ConvertError, convert};
pub use xml::{parse, tokenize};
