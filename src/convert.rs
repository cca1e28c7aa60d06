use vstd::prelude::*;
use crate::builder::{
    BuildError, Container, Field, build_score, misplaced_child, first_start, in_order, is_measure_of, is_part_of,
    measures_wf, score_error, score_valid,
};
use crate::schedule::{ScheduleError, ScheduledTrack, items_wf, schedule, schedule_spec};
use crate::score::{Measure, MeasureItem, Part, ScorePartwise};
use crate::timeline::{bucketize, delta_sum, encode, event_ticks, max_tick};
use crate::schedule::{keys_in_range, lemma_deltas_sum_to_end, lemma_schedule_succeeds};
use crate::tokens::{Token, element_end, last_named, named_before, start_name};

verus! {

/// Why a document could not be turned into a track.
#[derive(Clone, Copy, Debug, PartialEq, Eq, Structural)]
pub enum ConvertError {
    /// The markup is not well formed.
    Syntax,
    /// The document is not a valid score.
    Build(BuildError),
    /// The score does not have exactly one part; holds how many it has.
    PartCount(usize),
    /// The part could not be scheduled.
    Schedule(ScheduleError),
}

/// The items of the measures `ms`, one measure after another.
pub open spec fn flatten(ms: Seq<Measure>) -> Seq<MeasureItem>
    decreases ms.len(),
{
    if ms.len() == 0 {
        Seq::empty()
    } else {
        flatten(ms.drop_last()) + ms.last().content@
    }
}

/// The items of all measures of `part`, in performance order.
pub fn part_items(part: Part) -> (r: Vec<MeasureItem>)
    requires
        measures_wf(part.measure@),
    ensures
        r@ == flatten(part.measure@),
        items_wf(r@),
{
    let ghost all = part.measure@;
    let n = part.measure.len();
    let mut ms = part.measure;
    let mut rev: Vec<Measure> = Vec::new();
    while ms.len() > 0
        invariant
            n == all.len(),
            ms@.len() + rev@.len() == n,
            ms@ == all.take(ms@.len() as int),
            forall|j: int| 0 <= j < rev@.len() ==> #[trigger] rev@[j] == all[n - 1 - j],
        decreases ms@.len(),
    {
        let ghost before = rev@;
        match ms.pop() {
            Some(m) => {
                rev.push(m);
            },
            None => {},
        }
        assert(ms@ =~= all.take(ms@.len() as int));
        assert forall|j: int| 0 <= j < rev@.len() implies #[trigger] rev@[j] == all[n - 1 - j] by {
            if j < before.len() {
                assert(rev@[j] == before[j]);
            }
        }
    }
    let mut items: Vec<MeasureItem> = Vec::new();
    assert(all.take(0) =~= Seq::<Measure>::empty());
    while rev.len() > 0
        invariant
            n == all.len(),
            rev@.len() <= n,
            measures_wf(all),
            forall|j: int| 0 <= j < rev@.len() ==> #[trigger] rev@[j] == all[n - 1 - j],
            items@ == flatten(all.take(n - rev@.len())),
            items_wf(items@),
        decreases rev@.len(),
    {
        let k = n - rev.len();
        let ghost before = items@;
        match rev.pop() {
            Some(m) => {
                assert(m == all[k as int]);
                assert(items_wf(all[k as int].content@));
                let mut c = m.content;
                items.append(&mut c);
                assert(all.take(k + 1).drop_last() =~= all.take(k as int));
                assert forall|q: int| 0 <= q < items@.len() implies crate::schedule::item_wf(
                    #[trigger] items@[q],
                ) by {
                    if q < before.len() {
                        assert(items@[q] == before[q]);
                    } else {
                        assert(items@[q] == all[k as int].content@[q - before.len()]);
                    }
                }
            },
            None => {},
        }
    }
    assert(all.take(n as int) =~= all);
    items
}

/// Schedules the single part of `score`.
pub fn schedule_score(score: ScorePartwise) -> (r: Result<ScheduledTrack, ConvertError>)
    requires
        forall|k: int| 0 <= k < score.part@.len() ==> measures_wf(#[trigger] score.part@[k].measure@),
    ensures
        score.part@.len() != 1 ==> r == Err::<ScheduledTrack, ConvertError>(
            ConvertError::PartCount(score.part@.len() as usize),
        ),
        score.part@.len() == 1 ==> ({
            let s = schedule_spec(flatten(score.part@[0].measure@));
            &&& s is None <==> r is Err
            &&& s is None ==> r == Err::<ScheduledTrack, ConvertError>(
                ConvertError::Schedule(ScheduleError::KeyOutOfRange),
            )
            &&& r matches Ok(t) ==> t.events@ == encode(bucketize(s.unwrap().emitted))
                && t.end_position == s.unwrap().position
        }),
{
    let mut parts = score.part;
    if parts.len() != 1 {
        return Err(ConvertError::PartCount(parts.len()));
    }
    let ghost p0 = parts@[0];
    let part = match parts.pop() {
        Some(p) => p,
        None => {
            return Err(ConvertError::PartCount(0));
        },
    };
    assert(part == p0);
    let items = part_items(part);
    match schedule(&items) {
        Ok(t) => Ok(t),
        Err(e) => Err(ConvertError::Schedule(e)),
    }
}

/// Whether `r` is what scheduling `items` gives.
pub open spec fn scheduled_as(items: Seq<MeasureItem>, r: Result<ScheduledTrack, ConvertError>) -> bool {
    match schedule_spec(items) {
        Some(c) => r matches Ok(t) && t.events@ == encode(bucketize(c.emitted)) && t.end_position
            == c.position,
        None => r == Err::<ScheduledTrack, ConvertError>(
            ConvertError::Schedule(ScheduleError::KeyOutOfRange),
        ),
    }
}

/// Whether `r` is an error in the score's content.
pub open spec fn is_build_error(r: Result<ScheduledTrack, ConvertError>) -> bool {
    r matches Err(ConvertError::Build(_))
}

/// The root element of the tokens: their first start token.
pub open spec fn root(t: Seq<Token>) -> int {
    first_start(t, 0).unwrap()
}

/// Where the root element ends.
pub open spec fn root_end(t: Seq<Token>) -> int {
    element_end(t, root(t)).unwrap()
}

/// The part children of the root element.
pub open spec fn parts_of(t: Seq<Token>) -> Seq<int> {
    named_before(t, root(t), root_end(t), "part"@)
}

/// Whether `ms` are what the measure children of the single part hold.
pub open spec fn measures_of_part(t: Seq<Token>, ms: Seq<Measure>) -> bool {
    let p = parts_of(t)[0];
    let cs = named_before(t, p, element_end(t, p).unwrap(), "measure"@);
    &&& ms.len() == cs.len()
    &&& forall|k: int| 0 <= k < cs.len() ==> is_measure_of(#[trigger] ms[k], t, cs[k])
}

/// Whether `r` is what converting the tokens `t` gives: the fatal errors of
/// the root, a `Build` error exactly for an invalid score, that error being
/// the first one reading the score meets (`score_error`), `PartCount`
/// unless it has one part, and otherwise the track that scheduling the
/// items of that part's measures gives.
pub open spec fn converts_to(t: Seq<Token>, r: Result<ScheduledTrack, ConvertError>) -> bool {
    let x = root(t);
    let e = root_end(t);
    &&& first_start(t, 0) is None ==> r == Err::<ScheduledTrack, ConvertError>(
        ConvertError::Build(BuildError::UnexpectedEndOfInput),
    )
    &&& first_start(t, 0) is Some && start_name(t[x]) != "score-partwise"@ ==> r == Err::<
        ScheduledTrack,
        ConvertError,
    >(ConvertError::Build(BuildError::UnexpectedRoot))
    &&& first_start(t, 0) is Some && start_name(t[x]) == "score-partwise"@ && element_end(t, x) is None
        ==> r == Err::<ScheduledTrack, ConvertError>(
        ConvertError::Build(BuildError::UnexpectedEndOfInput),
    )
    &&& first_start(t, 0) is Some && start_name(t[x]) == "score-partwise"@ && element_end(t, x) is Some
        && !in_order(t, x, e, Container::Score) ==> r == Err::<ScheduledTrack, ConvertError>(
        ConvertError::Build(
            BuildError::OutOfOrderField {
                element: misplaced_child(t, x, e, Container::Score) as usize,
            },
        ),
    )
    &&& first_start(t, 0) is Some && start_name(t[x]) == "score-partwise"@ && element_end(t, x) is Some
        && in_order(t, x, e, Container::Score) && last_named(t, x, e, "part-list"@) is None ==> r
        == Err::<ScheduledTrack, ConvertError>(
        ConvertError::Build(BuildError::MissingField { element: x as usize, field: Field::PartList }),
    )
    &&& is_build_error(r) <==> !score_valid(t)
    &&& score_error(t) is Some ==> r == Err::<ScheduledTrack, ConvertError>(
        ConvertError::Build(score_error(t).unwrap()),
    )
    &&& score_valid(t) && parts_of(t).len() != 1 ==> r == Err::<ScheduledTrack, ConvertError>(
        ConvertError::PartCount(parts_of(t).len() as usize),
    )
    &&& score_valid(t) && parts_of(t).len() == 1 ==> exists|ms: Seq<Measure>|
        measures_of_part(t, ms) && #[trigger] scheduled_as(flatten(ms), r)
}

/// Whether the track `tr` is the one scheduled from `ms` and its deltas,
/// summed up to any event, give that event's absolute tick; in all, the
/// latest tick holding an event, and so the end position when the cursor
/// ends there.
pub open spec fn deltas_reach_ticks(ms: Seq<Measure>, tr: ScheduledTrack) -> bool {
    let c = schedule_spec(flatten(ms)).unwrap();
    let ev = tr.events@;
    &&& schedule_spec(flatten(ms)) is Some
    &&& ev == encode(bucketize(c.emitted))
    &&& tr.end_position == c.position
    &&& forall|k: int| 0 <= k < ev.len() ==> delta_sum(#[trigger] ev.take(k + 1))
        == event_ticks(bucketize(c.emitted))[k]
    &&& delta_sum(ev) == max_tick(c.emitted)
    &&& tr.end_position == max_tick(c.emitted) ==> delta_sum(ev) == tr.end_position
}

/// Of every track that converting a document gives: its deltas, summed up
/// to any event, give the tick the scheduler placed that event at, and in
/// all the latest such tick, which is the end position when the cursor ends
/// there.
pub proof fn lemma_converted_deltas(t: Seq<Token>, r: Result<ScheduledTrack, ConvertError>)
    requires
        converts_to(t, r),
        r is Ok,
    ensures
        exists|ms: Seq<Measure>| measures_of_part(t, ms) && #[trigger] deltas_reach_ticks(ms, r.unwrap()),
{
    assert(score_valid(t));
    assert(parts_of(t).len() == 1);
    let ms = choose|ms: Seq<Measure>| measures_of_part(t, ms) && #[trigger] scheduled_as(flatten(ms), r);
    assert(schedule_spec(flatten(ms)) is Some);
    lemma_deltas_sum_to_end(flatten(ms));
    assert(deltas_reach_ticks(ms, r.unwrap()));
}

/// A valid score with one part, whose pitched notes all have keys within 0
/// to 127, converts without error, however far its backups reach.
pub proof fn lemma_converts_ok(t: Seq<Token>, r: Result<ScheduledTrack, ConvertError>)
    requires
        converts_to(t, r),
        score_valid(t),
        parts_of(t).len() == 1,
        forall|ms: Seq<Measure>| measures_of_part(t, ms) ==> #[trigger] keys_in_range(flatten(ms)),
    ensures
        r is Ok,
{
    let ms = choose|ms: Seq<Measure>| measures_of_part(t, ms) && #[trigger] scheduled_as(flatten(ms), r);
    assert(keys_in_range(flatten(ms)));
    lemma_schedule_succeeds(flatten(ms), 0, crate::schedule::initial_cursor());
}

/// Reads the tokens of a document as a score and schedules its single part.
pub fn convert(tokens: &Vec<Token>) -> (r: Result<ScheduledTrack, ConvertError>)
    ensures
        converts_to(tokens@, r),
{
    match build_score(tokens) {
        Ok(score) => {
            let ghost ms = score.part@[0].measure@;
            let ghost n = score.part@.len();
            let r = schedule_score(score);
            proof {
                if n == 1 {
                    assert(measures_of_part(tokens@, ms));
                    assert(scheduled_as(flatten(ms), r));
                }
            }
            r
        },
        Err(e) => Err(ConvertError::Build(e)),
    }
}

} // verus!
