use vstd::prelude::*;
use crate::decimal::Decimal;
use crate::pitch::{midi_key, midi_note_number};
use crate::score::{MeasureItem, Note, NoteCategory, Pitch, StartStop};
use crate::timeline::{
    EventKind, Timeline, TrackEvent, bucketize, encode, ticks_in_range, delta_sum, max_tick,
    lemma_bucketize_wf, lemma_delta_sum_encode, event_ticks, lemma_prefix_deltas_give_ticks,
};
use crate::timing::{clamped_ticks, duration_ticks, micros_per_quarter, tempo_micros};

verus! {

/// MIDI channel of every note event.
pub const CHANNEL: u8 = 0;

/// Velocity of a note onset.
pub const ON_VELOCITY: u8 = 127;

/// Velocity of a note release.
pub const OFF_VELOCITY: u8 = 0;

/// Why a part could not be scheduled.
#[derive(Clone, Copy, Debug, PartialEq, Eq, Structural)]
pub enum ScheduleError {
    /// A pitch lies outside the MIDI key range 0 to 127.
    KeyOutOfRange,
}

/// The scheduler's state between two items.
pub struct Cursor {
    /// Divisions per quarter note.
    pub divisions: Decimal,
    /// Current tick position.
    pub position: u64,
    /// Every event emitted so far, with its absolute tick, in emission order.
    pub emitted: Seq<(int, EventKind)>,
}

/// The state before the first item: one division per quarter note, at tick 0.
pub open spec fn initial_cursor() -> Cursor {
    Cursor {
        divisions: Decimal { negative: false, units: 1, scale: 0 },
        position: 0,
        emitted: Seq::empty(),
    }
}

/// The alteration of a pitch, rounded to whole semitones.
pub open spec fn rounded_alter(p: Pitch) -> int {
    match p.alter {
        Some(a) => a.rounded(),
        None => 0,
    }
}

/// The MIDI key of a pitch.
pub open spec fn key_of(p: Pitch) -> int {
    midi_key(p.step, p.octave as int, rounded_alter(p))
}

pub open spec fn key_in_range(p: Pitch) -> bool {
    0 <= key_of(p) <= 127
}

/// Whether the note's tie stops here: it continues a sounding note and
/// gets no onset of its own.
pub open spec fn tie_stops(n: Note) -> bool {
    n.tie matches Some(t) && t.kind == StartStop::Stop
}

/// Whether the note's tie starts here: a later note continues its sound,
/// so it gets no release of its own.
pub open spec fn tie_starts(n: Note) -> bool {
    n.tie matches Some(t) && t.kind == StartStop::Start
}

pub open spec fn note_on(key: int) -> EventKind {
    EventKind::NoteOn { channel: CHANNEL, key: key as u8, velocity: ON_VELOCITY }
}

pub open spec fn note_off(key: int) -> EventKind {
    EventKind::NoteOff { channel: CHANNEL, key: key as u8, velocity: OFF_VELOCITY }
}

/// The onset of a pitched note at `tick`: none when its tie stops.
pub open spec fn onset(n: Note, tick: int) -> Seq<(int, EventKind)> {
    if tie_stops(n) {
        Seq::empty()
    } else {
        seq![(tick, note_on(key_of(n.pitch.unwrap())))]
    }
}

/// The release of a pitched note at `tick`: none when its tie starts.
pub open spec fn release(n: Note, tick: int) -> Seq<(int, EventKind)> {
    if tie_starts(n) {
        Seq::empty()
    } else {
        seq![(tick, note_off(key_of(n.pitch.unwrap())))]
    }
}

/// Whether `item` joins the chord of the note before it: a note with a
/// chord marker and a pitch.
pub open spec fn is_chord_member(item: MeasureItem) -> bool {
    item matches MeasureItem::Note(n) && n.chord is Some && n.pitch is Some
}

/// Number of chord members that follow one another from index `j` on.
pub open spec fn chord_len(items: Seq<MeasureItem>, j: int) -> nat
    decreases items.len() - j,
{
    if 0 <= j < items.len() && is_chord_member(items[j]) {
        1 + chord_len(items, j + 1)
    } else {
        0
    }
}

pub open spec fn member(items: Seq<MeasureItem>, j: int) -> Note {
    items[j]->Note_0
}

/// Onsets at `tick` of the chord members at indices `lo .. hi`.
pub open spec fn member_onsets(items: Seq<MeasureItem>, lo: int, hi: int, tick: int) -> Seq<
    (int, EventKind),
>
    decreases hi - lo,
{
    if hi <= lo {
        Seq::empty()
    } else {
        member_onsets(items, lo, hi - 1, tick) + onset(member(items, hi - 1), tick)
    }
}

/// Releases at `tick` of the chord members at indices `lo .. hi`.
pub open spec fn member_releases(items: Seq<MeasureItem>, lo: int, hi: int, tick: int) -> Seq<
    (int, EventKind),
>
    decreases hi - lo,
{
    if hi <= lo {
        Seq::empty()
    } else {
        member_releases(items, lo, hi - 1, tick) + release(member(items, hi - 1), tick)
    }
}

/// `position + ticks`, saturated at the largest position.
pub open spec fn advance(position: int, ticks: int) -> int {
    if position + ticks > u64::MAX {
        u64::MAX as int
    } else {
        position + ticks
    }
}

/// `position - ticks`, clamped at zero.
pub open spec fn rewind(position: int, ticks: int) -> int {
    if position < ticks {
        0
    } else {
        position - ticks
    }
}

/// The state after the note at index `i`, which is pitched, with its chord
/// members at `i + 1 .. end`; `None` when a key is out of range.
pub open spec fn play_note(items: Seq<MeasureItem>, i: int, end: int, c: Cursor) -> Option<Cursor> {
    let n = member(items, i);
    let t = clamped_ticks(n.duration, c.divisions);
    let later = advance(c.position as int, t);
    if !key_in_range(n.pitch.unwrap()) || exists|j: int|
        i + 1 <= j < end && !key_in_range(#[trigger] member(items, j).pitch.unwrap()) {
        None
    } else {
        Some(
            Cursor {
                divisions: c.divisions,
                position: later as u64,
                emitted: c.emitted + onset(n, c.position as int) + member_onsets(
                    items,
                    i + 1,
                    end,
                    c.position as int,
                ) + release(n, later) + member_releases(items, i + 1, end, later),
            },
        )
    }
}

/// The index after the item at `i` and the state after it; `None` when it
/// fails.
pub open spec fn step(items: Seq<MeasureItem>, i: int, c: Cursor) -> Option<(int, Cursor)> {
    match items[i] {
        MeasureItem::Attributes(a) => {
            let divisions = match a.divisions {
                Some(d) => if d.is_positive() {
                    d
                } else {
                    c.divisions
                },
                None => c.divisions,
            };
            Some((i + 1, Cursor { divisions, ..c }))
        },
        MeasureItem::Direction(d) => {
            match d.sound {
                Some(s) => match s.tempo {
                    Some(bpm) => if bpm.is_positive() {
                        Some(
                            (
                                i + 1,
                                Cursor {
                                    emitted: c.emitted.push(
                                        (
                                            c.position as int,
                                            EventKind::TempoChange {
                                                micros_per_quarter: micros_per_quarter(bpm) as u64,
                                            },
                                        ),
                                    ),
                                    ..c
                                },
                            ),
                        )
                    } else {
                        Some((i + 1, c))
                    },
                    None => Some((i + 1, c)),
                },
                None => Some((i + 1, c)),
            }
        },
        MeasureItem::Backup(b) => Some(
            (
                i + 1,
                Cursor {
                    position: rewind(
                        c.position as int,
                        clamped_ticks(b.duration, c.divisions),
                    ) as u64,
                    ..c
                },
            ),
        ),
        MeasureItem::Note(n) => {
            if n.category != NoteCategory::Regular {
                Some((i + 1, c))
            } else if n.pitch is Some {
                let end = i + 1 + chord_len(items, i + 1);
                match play_note(items, i, end, c) {
                    Some(c2) => Some((end, c2)),
                    None => None,
                }
            } else {
                Some(
                    (
                        i + 1,
                        Cursor {
                            position: advance(
                                c.position as int,
                                clamped_ticks(n.duration, c.divisions),
                            ) as u64,
                            ..c
                        },
                    ),
                )
            }
        },
        _ => Some((i + 1, c)),
    }
}


/// Whether every number an item holds is a well-formed decimal.
pub open spec fn item_wf(item: MeasureItem) -> bool {
    match item {
        MeasureItem::Attributes(a) => a.divisions matches Some(d) ==> d.wf(),
        MeasureItem::Direction(d) => d.sound matches Some(s) ==> (s.tempo matches Some(t) ==> t.wf()),
        MeasureItem::Backup(b) => b.duration.wf(),
        MeasureItem::Note(n) => n.duration.wf() && (n.pitch matches Some(p) ==> (p.alter matches Some(
            a,
        ) ==> a.wf())),
        _ => true,
    }
}

pub open spec fn items_wf(items: Seq<MeasureItem>) -> bool {
    forall|k: int| 0 <= k < items.len() ==> item_wf(#[trigger] items[k])
}

pub proof fn lemma_chord_len_bound(items: Seq<MeasureItem>, j: int)
    requires
        0 <= j,
    ensures
        j + chord_len(items, j) <= if j < items.len() {
            items.len() as int
        } else {
            j
        },
    decreases items.len() - j,
{
    if 0 <= j < items.len() && is_chord_member(items[j]) {
        lemma_chord_len_bound(items, j + 1);
    }
}

pub proof fn lemma_step_advances(items: Seq<MeasureItem>, i: int, c: Cursor)
    requires
        0 <= i < items.len(),
    ensures
        step(items, i, c) matches Some((j, _)) ==> i < j <= items.len(),
{
    lemma_chord_len_bound(items, i + 1);
}

#[via_fn]
proof fn run_decreases(items: Seq<MeasureItem>, i: int, c: Cursor) {
    if 0 <= i < items.len() {
        lemma_step_advances(items, i, c);
    }
}

/// The state after the items from index `i` on, starting from `c`; `None`
/// when one of them fails.
pub open spec fn run(items: Seq<MeasureItem>, i: int, c: Cursor) -> Option<Cursor>
    decreases items.len() - i,
    via run_decreases
{
    if i < 0 || i >= items.len() {
        Some(c)
    } else {
        match step(items, i, c) {
            Some((j, c2)) => run(items, j, c2),
            None => None,
        }
    }
}

/// The state after all of `items`, from the initial state.
pub open spec fn schedule_spec(items: Seq<MeasureItem>) -> Option<Cursor> {
    run(items, 0, initial_cursor())
}

pub fn chord_member(item: &MeasureItem) -> (r: bool)
    ensures
        r == is_chord_member(*item),
{
    match item {
        MeasureItem::Note(n) => n.chord.is_some() && n.pitch.is_some(),
        _ => false,
    }
}

fn tie_stop(n: &Note) -> (r: bool)
    ensures
        r == tie_stops(*n),
{
    match &n.tie {
        Some(t) => match t.kind {
            StartStop::Stop => true,
            StartStop::Start => false,
        },
        None => false,
    }
}

fn tie_start(n: &Note) -> (r: bool)
    ensures
        r == tie_starts(*n),
{
    match &n.tie {
        Some(t) => match t.kind {
            StartStop::Start => true,
            StartStop::Stop => false,
        },
        None => false,
    }
}

/// The MIDI key of `p`, or `None` when it lies outside 0 to 127.
pub fn pitch_key(p: &Pitch) -> (r: Option<u8>)
    requires
        p.alter matches Some(a) ==> a.wf(),
    ensures
        r == if key_in_range(*p) {
            Some(key_of(*p) as u8)
        } else {
            None::<u8>
        },
{
    let alter: i64 = match &p.alter {
        Some(a) => a.round(),
        None => 0,
    };
    if alter < -10000 || alter > 10000 {
        return None;
    }
    let k: i64 = (p.octave as i64 + 1) * 12 + crate::pitch::step_semitone(p.step) as i64 + alter;
    if 0 <= k && k <= 127 {
        Some(midi_note_number(p.step, p.octave, alter as i32))
    } else {
        None
    }
}

/// Plays the pitched regular note `n` at index `i` and the chord members
/// after it, from `position`; returns the index after the group and the new
/// position.
fn play(
    items: &Vec<MeasureItem>,
    i: usize,
    n: &Note,
    divisions: &Decimal,
    position: u64,
    tl: &mut Timeline,
) -> (r: Result<(usize, u64), ScheduleError>)
    requires
        i < items@.len(),
        items@[i as int] == MeasureItem::Note(*n),
        n.pitch is Some,
        items_wf(items@),
        old(tl).wf(),
        divisions.wf(),
        divisions.is_positive(),
    ensures
        ({
            let end = i + 1 + chord_len(items@, i + 1);
            let c = Cursor { divisions: *divisions, position, emitted: old(tl).log() };
            match play_note(items@, i as int, end, c) {
                Some(c2) => r == Ok::<(usize, u64), ScheduleError>((end as usize, c2.position))
                    && final(tl).log() == c2.emitted && final(tl).wf(),
                None => r == Err::<(usize, u64), ScheduleError>(ScheduleError::KeyOutOfRange),
            }
        }),
{
    let ghost base = tl.log();
    let ghost its = items@;
    assert(item_wf(its[i as int]));
    let p = match &n.pitch {
        Some(p) => p,
        None => {
            return Err(ScheduleError::KeyOutOfRange);
        },
    };
    let key = match pitch_key(p) {
        Some(k) => k,
        None => {
            return Err(ScheduleError::KeyOutOfRange);
        },
    };
    // the chord members, and whether all their keys are in range
    let len = items.len();
    let mut j: usize = i + 1;
    while j < len && chord_member(&items[j])
        invariant
            i < j <= len == its.len(),
            its == items@,
            items_wf(its),
            chord_len(its, i + 1) == (j - (i + 1)) + chord_len(its, j as int),
            forall|k: int| i + 1 <= k < j ==> is_chord_member(#[trigger] its[k]),
            forall|k: int| i + 1 <= k < j ==> key_in_range(#[trigger] member(its, k).pitch.unwrap()),
        decreases len - j,
    {
        assert(item_wf(its[j as int]));
        let ok = match &items[j] {
            MeasureItem::Note(m) => match &m.pitch {
                Some(q) => pitch_key(q).is_some(),
                None => false,
            },
            _ => false,
        };
        if !ok {
            proof {
                assert(is_chord_member(its[j as int]));
                assert(chord_len(its, j as int) >= 1);
                assert(i + 1 <= j < i + 1 + chord_len(its, i + 1));
                assert(!key_in_range(member(its, j as int).pitch.unwrap()));
            }
            return Err(ScheduleError::KeyOutOfRange);
        }
        j = j + 1;
    }
    assert(chord_len(its, j as int) == 0);
    let ticks = duration_ticks(&n.duration, divisions);
    let later: u64 = if position as u128 + ticks as u128 > u64::MAX as u128 {
        u64::MAX
    } else {
        position + ticks
    };
    // onsets
    if !tie_stop(n) {
        tl.insert(position, EventKind::NoteOn { channel: CHANNEL, key, velocity: ON_VELOCITY });
    }
    assert(tl.log() =~= base + onset(*n, position as int));
    let mut k: usize = i + 1;
    while k < j
        invariant
            i < k <= j <= len == its.len(),
            its == items@,
            items_wf(its),
            tl.wf(),
            forall|q: int| i + 1 <= q < j ==> is_chord_member(#[trigger] its[q]),
            forall|q: int| i + 1 <= q < j ==> key_in_range(#[trigger] member(its, q).pitch.unwrap()),
            tl.log() == base + onset(*n, position as int) + member_onsets(its, i + 1, k as int, position as int),
        decreases j - k,
    {
        assert(is_chord_member(its[k as int]));
        assert(key_in_range(member(its, k as int).pitch.unwrap()));
        assert(item_wf(its[k as int]));
        let ghost before = tl.log();
        match &items[k] {
            MeasureItem::Note(m) => {
                match &m.pitch {
                    Some(q) => {
                        if !tie_stop(m) {
                            match pitch_key(q) {
                                Some(kk) => {
                                    tl.insert(position, EventKind::NoteOn { channel: CHANNEL, key: kk, velocity: ON_VELOCITY });
                                },
                                None => {},
                            }
                        }
                    },
                    None => {},
                }
            },
            _ => {},
        }
        assert(tl.log() =~= before + onset(member(its, k as int), position as int));
        k = k + 1;
    }
    let ghost mid = tl.log();
    // releases
    if !tie_start(n) {
        tl.insert(later, EventKind::NoteOff { channel: CHANNEL, key, velocity: OFF_VELOCITY });
    }
    assert(tl.log() =~= mid + release(*n, later as int));
    let mut k: usize = i + 1;
    while k < j
        invariant
            i < k <= j <= len == its.len(),
            its == items@,
            items_wf(its),
            tl.wf(),
            forall|q: int| i + 1 <= q < j ==> is_chord_member(#[trigger] its[q]),
            forall|q: int| i + 1 <= q < j ==> key_in_range(#[trigger] member(its, q).pitch.unwrap()),
            tl.log() == mid + release(*n, later as int) + member_releases(its, i + 1, k as int, later as int),
        decreases j - k,
    {
        assert(is_chord_member(its[k as int]));
        assert(key_in_range(member(its, k as int).pitch.unwrap()));
        assert(item_wf(its[k as int]));
        let ghost before = tl.log();
        match &items[k] {
            MeasureItem::Note(m) => {
                match &m.pitch {
                    Some(q) => {
                        if !tie_start(m) {
                            match pitch_key(q) {
                                Some(kk) => {
                                    tl.insert(later, EventKind::NoteOff { channel: CHANNEL, key: kk, velocity: OFF_VELOCITY });
                                },
                                None => {},
                            }
                        }
                    },
                    None => {},
                }
            },
            _ => {},
        }
        assert(tl.log() =~= before + release(member(its, k as int), later as int));
        k = k + 1;
    }
    Ok((j, later))
}


/// The track made from a part, and the tick position its cursor ended at.
pub struct ScheduledTrack {
    pub events: Vec<TrackEvent>,
    pub end_position: u64,
}

/// Walks `items` in order and turns them into a delta-encoded track.
///
/// Divisions start at 1 per quarter note and are replaced by each
/// attributes item with a positive value; durations become ticks at 480 per
/// quarter note, rounded. A direction with a positive tempo adds a tempo
/// change at the cursor. A backup moves the cursor back, stopping at 0. A
/// rest moves it forward by its own duration, whole-measure rests too. A pitched regular note gets an onset at the
/// cursor, as do the chord members right after it; the cursor then moves
/// by the note's ticks and all of them are released there. A note whose
/// tie stops gets no onset, one whose tie starts gets no release, so a
/// tied pair sounds as one note. A note keeps only its last tie: the middle
/// note of a chain, whose ties stop and then start, counts as a start, so
/// it strikes its key again while it still sounds, and its release is left
/// to the note that ends the chain. Grace and cue notes, barlines and prints
/// change nothing. Fails when a key lies outside 0 to 127.
pub fn schedule(items: &Vec<MeasureItem>) -> (r: Result<ScheduledTrack, ScheduleError>)
    requires
        items_wf(items@),
    ensures
        schedule_spec(items@) is None <==> r is Err,
        r matches Ok(t) ==> t.events@ == encode(bucketize(schedule_spec(items@).unwrap().emitted))
            && t.end_position == schedule_spec(items@).unwrap().position,
{
    let ghost its = items@;
    let mut divisions = Decimal { negative: false, units: 1, scale: 0 };
    let mut position: u64 = 0;
    let mut tl = Timeline::new();
    let len = items.len();
    let mut i: usize = 0;
    proof {
        crate::decimal::lemma_pow10_18();
    }
    while i < len
        invariant
            i <= len == its.len(),
            its == items@,
            items_wf(its),
            tl.wf(),
            divisions.wf(),
            divisions.is_positive(),
            run(its, i as int, Cursor { divisions, position, emitted: tl.log() }) == schedule_spec(its),
        decreases len - i,
    {
        let ghost c = Cursor { divisions, position, emitted: tl.log() };
        assert(item_wf(its[i as int]));
        proof {
            lemma_step_advances(its, i as int, c);
        }
        match &items[i] {
            MeasureItem::Attributes(a) => {
                match &a.divisions {
                    Some(d) => {
                        if d.positive() {
                            divisions = *d;
                        }
                    },
                    None => {},
                }
                i = i + 1;
            },
            MeasureItem::Direction(d) => {
                match &d.sound {
                    Some(snd) => match &snd.tempo {
                        Some(bpm) => {
                            if bpm.positive() {
                                let us = tempo_micros(bpm);
                                tl.insert(position, EventKind::TempoChange { micros_per_quarter: us });
                            }
                        },
                        None => {},
                    },
                    None => {},
                }
                i = i + 1;
            },
            MeasureItem::Backup(b) => {
                let ticks = duration_ticks(&b.duration, &divisions);
                position = if position < ticks {
                    0
                } else {
                    position - ticks
                };
                i = i + 1;
            },
            MeasureItem::Note(n) => {
                match n.category {
                    NoteCategory::Regular => {
                        if n.pitch.is_some() {
                            match play(items, i, n, &divisions, position, &mut tl) {
                                Ok((j, p)) => {
                                    i = j;
                                    position = p;
                                },
                                Err(e) => {
                                    return Err(e);
                                },
                            }
                        } else {
                            let ticks = duration_ticks(&n.duration, &divisions);
                            position = if position as u128 + ticks as u128 > u64::MAX as u128 {
                                u64::MAX
                            } else {
                                position + ticks
                            };
                            i = i + 1;
                        }
                    },
                    _ => {
                        i = i + 1;
                    },
                }
            },
            _ => {
                i = i + 1;
            },
        }
    }
    Ok(ScheduledTrack { events: tl.to_track(), end_position: position })
}


/// A pitched regular note with no tie, after which no chord member
/// follows, gets exactly one onset at the cursor and one release at the
/// cursor plus its ticks, where the cursor then stands.
pub proof fn lemma_lone_note(items: Seq<MeasureItem>, i: int, c: Cursor)
    requires
        0 <= i < items.len(),
        items[i] matches MeasureItem::Note(n) && n.category == NoteCategory::Regular
            && n.pitch is Some && n.tie is None && key_in_range(n.pitch.unwrap()),
        i + 1 < items.len() ==> !is_chord_member(items[i + 1]),
        c.position + clamped_ticks(member(items, i).duration, c.divisions) <= u64::MAX,
    ensures
        ({
            let n = member(items, i);
            let t = clamped_ticks(n.duration, c.divisions);
            let k = key_of(n.pitch.unwrap());
            step(items, i, c) == Some(
                (
                    i + 1,
                    Cursor {
                        divisions: c.divisions,
                        position: (c.position + t) as u64,
                        emitted: c.emitted + seq![
                            (c.position as int, note_on(k)),
                            (c.position + t, note_off(k)),
                        ],
                    },
                ),
            )
        }),
{
    let n = member(items, i);
    let t = clamped_ticks(n.duration, c.divisions);
    let k = key_of(n.pitch.unwrap());
    assert(chord_len(items, i + 1) == 0);
    assert(member_onsets(items, i + 1, i + 1, c.position as int) =~= Seq::<(int, EventKind)>::empty());
    assert(member_releases(items, i + 1, i + 1, c.position + t) =~= Seq::<(int, EventKind)>::empty());
    assert(c.emitted + onset(n, c.position as int) + Seq::<(int, EventKind)>::empty() + release(
        n,
        c.position + t,
    ) + Seq::<(int, EventKind)>::empty() =~= c.emitted + seq![
        (c.position as int, note_on(k)),
        (c.position + t, note_off(k)),
    ]);
}

pub proof fn lemma_member_events(items: Seq<MeasureItem>, lo: int, hi: int, tick: int)
    requires
        lo <= hi,
        forall|j: int| lo <= j < hi ==> #[trigger] member(items, j).tie is None,
    ensures
        member_onsets(items, lo, hi, tick).len() == hi - lo,
        member_releases(items, lo, hi, tick).len() == hi - lo,
        forall|q: int| 0 <= q < hi - lo ==> #[trigger] member_onsets(items, lo, hi, tick)[q] == (
            tick,
            note_on(key_of(member(items, lo + q).pitch.unwrap())),
        ),
        forall|q: int| 0 <= q < hi - lo ==> #[trigger] member_releases(items, lo, hi, tick)[q] == (
            tick,
            note_off(key_of(member(items, lo + q).pitch.unwrap())),
        ),
    decreases hi - lo,
{
    if hi > lo {
        lemma_member_events(items, lo, hi - 1, tick);
        assert(member(items, hi - 1).tie is None);
    }
}

/// A chord of `n` notes (a pitched regular note and the `n - 1` chord
/// members right after it), none of them tied, gets `n` onsets at the
/// cursor followed by `n` releases together at the cursor plus the first
/// note's ticks.
pub proof fn lemma_chord_group(items: Seq<MeasureItem>, i: int, c: Cursor)
    requires
        0 <= i < items.len(),
        items[i] matches MeasureItem::Note(n) && n.category == NoteCategory::Regular
            && n.pitch is Some,
        forall|j: int|
            i <= j < i + 1 + chord_len(items, i + 1) ==> #[trigger] member(items, j).tie is None
                && key_in_range(member(items, j).pitch.unwrap()),
        c.position + clamped_ticks(member(items, i).duration, c.divisions) <= u64::MAX,
    ensures
        ({
            let g = 1 + chord_len(items, i + 1);
            let t = clamped_ticks(member(items, i).duration, c.divisions);
            let r = step(items, i, c);
            &&& r matches Some((j, c2)) && j == i + g && c2.position == c.position + t
                && c2.emitted.len() == c.emitted.len() + 2 * g && c2.emitted.take(
                c.emitted.len() as int,
            ) == c.emitted
            &&& forall|q: int|
                0 <= q < g ==> #[trigger] r.unwrap().1.emitted[c.emitted.len() + q] == (
                    c.position as int,
                    note_on(key_of(member(items, i + q).pitch.unwrap())),
                )
            &&& forall|q: int|
                0 <= q < g ==> #[trigger] r.unwrap().1.emitted[c.emitted.len() + g + q] == (
                    c.position + t,
                    note_off(key_of(member(items, i + q).pitch.unwrap())),
                )
        }),
{
    let n = member(items, i);
    let g = 1 + chord_len(items, i + 1);
    let end = i + g;
    let t = clamped_ticks(n.duration, c.divisions);
    let later = c.position + t;
    assert(member(items, i).tie is None);
    lemma_member_events(items, i + 1, end, c.position as int);
    lemma_member_events(items, i + 1, end, later);
    assert forall|j: int| i + 1 <= j < end implies key_in_range(
        #[trigger] member(items, j).pitch.unwrap(),
    ) by {
        assert(member(items, j).tie is None);
    }
    assert(key_in_range(n.pitch.unwrap())) by {
        assert(member(items, i).tie is None);
    }
    let ons = onset(n, c.position as int) + member_onsets(items, i + 1, end, c.position as int);
    let offs = release(n, later) + member_releases(items, i + 1, end, later);
    let e2 = c.emitted + onset(n, c.position as int) + member_onsets(
        items,
        i + 1,
        end,
        c.position as int,
    ) + release(n, later) + member_releases(items, i + 1, end, later);
    assert(e2 =~= c.emitted + ons + offs);
    assert(step(items, i, c) == Some((end, Cursor { divisions: c.divisions, position: later as u64, emitted: e2 })));
    assert(e2.take(c.emitted.len() as int) =~= c.emitted);
    assert forall|q: int| 0 <= q < g implies #[trigger] e2[c.emitted.len() + q] == (
        c.position as int,
        note_on(key_of(member(items, i + q).pitch.unwrap())),
    ) by {
        if q > 0 {
            assert(e2[c.emitted.len() + q] == ons[q]);
            assert(ons[q] == member_onsets(items, i + 1, end, c.position as int)[q - 1]);
        } else {
            assert(e2[c.emitted.len() + q] == ons[q]);
        }
    }
    assert forall|q: int| 0 <= q < g implies #[trigger] e2[c.emitted.len() + g + q] == (
        later,
        note_off(key_of(member(items, i + q).pitch.unwrap())),
    ) by {
        assert(e2[c.emitted.len() + g + q] == offs[q]);
        if q > 0 {
            assert(offs[q] == member_releases(items, i + 1, end, later)[q - 1]);
        }
    }
}

/// A backup longer than the distance from tick 0 to the cursor moves the
/// cursor to 0; it never fails.
pub proof fn lemma_backup_clamps(items: Seq<MeasureItem>, i: int, c: Cursor)
    requires
        0 <= i < items.len(),
        items[i] matches MeasureItem::Backup(b) && clamped_ticks(b.duration, c.divisions)
            > c.position,
    ensures
        step(items, i, c) == Some((i + 1, Cursor { position: 0, ..c })),
{
}

pub proof fn lemma_member_ticks(items: Seq<MeasureItem>, lo: int, hi: int, tick: int)
    ensures
        forall|q: int| 0 <= q < member_onsets(items, lo, hi, tick).len()
            ==> #[trigger] member_onsets(items, lo, hi, tick)[q].0 == tick,
        forall|q: int| 0 <= q < member_releases(items, lo, hi, tick).len()
            ==> #[trigger] member_releases(items, lo, hi, tick)[q].0 == tick,
    decreases hi - lo,
{
    if hi > lo {
        lemma_member_ticks(items, lo, hi - 1, tick);
        let a = member_onsets(items, lo, hi - 1, tick);
        let b = member_releases(items, lo, hi - 1, tick);
        assert forall|q: int| 0 <= q < member_onsets(items, lo, hi, tick).len()
            implies #[trigger] member_onsets(items, lo, hi, tick)[q].0 == tick by {
            if q < a.len() {
                assert(member_onsets(items, lo, hi, tick)[q] == a[q]);
            }
        }
        assert forall|q: int| 0 <= q < member_releases(items, lo, hi, tick).len()
            implies #[trigger] member_releases(items, lo, hi, tick)[q].0 == tick by {
            if q < b.len() {
                assert(member_releases(items, lo, hi, tick)[q] == b[q]);
            }
        }
    }
}

pub proof fn lemma_step_ticks(items: Seq<MeasureItem>, i: int, c: Cursor)
    requires
        0 <= i < items.len(),
        ticks_in_range(c.emitted),
    ensures
        step(items, i, c) matches Some((_, c2)) ==> ticks_in_range(c2.emitted),
{
    if let Some((_, c2)) = step(items, i, c) {
        if items[i] is Note && member(items, i).category == NoteCategory::Regular
            && member(items, i).pitch is Some {
            let n = member(items, i);
            let end = i + 1 + chord_len(items, i + 1);
            let later = advance(c.position as int, clamped_ticks(n.duration, c.divisions));
            lemma_member_ticks(items, i + 1, end, c.position as int);
            lemma_member_ticks(items, i + 1, end, later);
            let a = c.emitted;
            let b = onset(n, c.position as int);
            let d = member_onsets(items, i + 1, end, c.position as int);
            let e = release(n, later);
            let f = member_releases(items, i + 1, end, later);
            assert(c2.emitted == a + b + d + e + f);
            assert forall|q: int| 0 <= q < c2.emitted.len() implies 0 <= #[trigger] c2.emitted[q].0
                <= u64::MAX by {
                if q < a.len() {
                } else if q < a.len() + b.len() {
                    assert(c2.emitted[q] == b[q - a.len()]);
                } else if q < a.len() + b.len() + d.len() {
                    assert(c2.emitted[q] == d[q - a.len() - b.len()]);
                } else if q < a.len() + b.len() + d.len() + e.len() {
                    assert(c2.emitted[q] == e[q - a.len() - b.len() - d.len()]);
                } else {
                    assert(c2.emitted[q] == f[q - a.len() - b.len() - d.len() - e.len()]);
                }
            }
        } else if let MeasureItem::Direction(d) = items[i] {
            if let Some(snd) = d.sound {
                if let Some(bpm) = snd.tempo {
                    if bpm.is_positive() {
                        let x = (
                            c.position as int,
                            EventKind::TempoChange {
                                micros_per_quarter: micros_per_quarter(bpm) as u64,
                            },
                        );
                        assert(c2.emitted == c.emitted.push(x));
                        assert forall|q: int| 0 <= q < c2.emitted.len() implies 0
                            <= #[trigger] c2.emitted[q].0 <= u64::MAX by {
                            if q < c.emitted.len() {
                                assert(c2.emitted[q] == c.emitted[q]);
                            }
                        }
                    }
                }
            }
        }
    }
}

pub proof fn lemma_run_ticks(items: Seq<MeasureItem>, i: int, c: Cursor)
    requires
        ticks_in_range(c.emitted),
    ensures
        run(items, i, c) matches Some(c2) ==> ticks_in_range(c2.emitted),
    decreases items.len() - i,
{
    if 0 <= i < items.len() {
        lemma_step_ticks(items, i, c);
        lemma_step_advances(items, i, c);
        if let Some((j, c2)) = step(items, i, c) {
            lemma_run_ticks(items, j, c2);
        }
    }
}

/// Whether every pitched note among `items` has a key within 0 to 127.
pub open spec fn keys_in_range(items: Seq<MeasureItem>) -> bool {
    forall|k: int|
        0 <= k < items.len() && #[trigger] items[k] is Note && member(items, k).pitch is Some
            ==> key_in_range(member(items, k).pitch.unwrap())
}

/// Scheduling fails only on a key out of range: backups, rests, tempos
/// and everything else never make it fail.
pub proof fn lemma_schedule_succeeds(items: Seq<MeasureItem>, i: int, c: Cursor)
    requires
        keys_in_range(items),
    ensures
        run(items, i, c) is Some,
    decreases items.len() - i,
{
    if 0 <= i < items.len() {
        lemma_step_advances(items, i, c);
        if items[i] is Note && member(items, i).category == NoteCategory::Regular
            && member(items, i).pitch is Some {
            let end = i + 1 + chord_len(items, i + 1);
            assert(key_in_range(member(items, i).pitch.unwrap()));
            assert forall|j: int| i + 1 <= j < end implies key_in_range(
                #[trigger] member(items, j).pitch.unwrap(),
            ) by {
                lemma_chord_members(items, i + 1, j);
            }
        }
        let (j, c2) = step(items, i, c).unwrap();
        lemma_schedule_succeeds(items, j, c2);
    }
}

/// The items in a chord run from `lo` on are pitched notes.
pub proof fn lemma_chord_members(items: Seq<MeasureItem>, lo: int, j: int)
    requires
        lo <= j < lo + chord_len(items, lo),
    ensures
        0 <= j < items.len() && is_chord_member(items[j]),
    decreases j - lo,
{
    if j > lo {
        lemma_chord_members(items, lo + 1, j);
    }
}

/// The deltas of a scheduled track, summed up to any event, give that
/// event's absolute tick; in all they add up to the latest tick at which an
/// event lies, so, when the cursor ends at that tick, to the final cursor
/// position.
pub proof fn lemma_deltas_sum_to_end(items: Seq<MeasureItem>)
    requires
        schedule_spec(items) is Some,
    ensures
        ({
            let c = schedule_spec(items).unwrap();
            let track = encode(bucketize(c.emitted));
            &&& forall|k: int| 0 <= k < track.len() ==> delta_sum(#[trigger] track.take(k + 1))
                == event_ticks(bucketize(c.emitted))[k]
            &&& delta_sum(encode(bucketize(c.emitted))) == max_tick(c.emitted)
            &&& c.position == max_tick(c.emitted) ==> delta_sum(encode(bucketize(c.emitted)))
                == c.position
        }),
{
    let c = schedule_spec(items).unwrap();
    lemma_run_ticks(items, 0, initial_cursor());
    lemma_bucketize_wf(c.emitted);
    lemma_delta_sum_encode(bucketize(c.emitted));
    lemma_prefix_deltas_give_ticks(bucketize(c.emitted));
}

} // verus!
