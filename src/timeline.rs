use vstd::prelude::*;
use std::collections::BTreeMap;
use vstd::std_specs::cmp::OrdSpec;
use vstd::std_specs::iter::IteratorSpec;

verus! {

broadcast use vstd::std_specs::btree::group_btree_axioms, vstd::laws_cmp::group_laws_cmp;

/// What happens at a tick of the output track.
#[derive(Clone, Copy, Debug, PartialEq, Eq, Structural)]
pub enum EventKind {
    NoteOn { channel: u8, key: u8, velocity: u8 },
    NoteOff { channel: u8, key: u8, velocity: u8 },
    TempoChange { micros_per_quarter: u64 },
}

/// An event of the output track, `delta` ticks after the one before it.
#[derive(Clone, Copy, Debug, PartialEq, Eq, Structural)]
pub struct TrackEvent {
    pub delta: u64,
    pub kind: EventKind,
}

/// Events keyed by absolute tick position, each position's events in the
/// order they were added.
pub struct Timeline {
    map: BTreeMap<u64, Vec<EventKind>>,
    /// Every event added so far, with its tick, in the order of adding.
    log: Ghost<Seq<(int, EventKind)>>,
}

/// Adds `e` at tick `t` to the sorted buckets `b`: appended to the bucket of
/// tick `t`, or in a new bucket at its place in tick order.
pub open spec fn insert_event(b: Seq<(int, Seq<EventKind>)>, t: int, e: EventKind) -> Seq<
    (int, Seq<EventKind>),
>
    decreases b.len(),
{
    if b.len() == 0 {
        seq![(t, seq![e])]
    } else if b[0].0 == t {
        b.update(0, (t, b[0].1.push(e)))
    } else if t < b[0].0 {
        seq![(t, seq![e])] + b
    } else {
        seq![b[0]] + insert_event(b.drop_first(), t, e)
    }
}

/// The buckets that hold the events `s`, added in order; each is a pair of
/// an absolute tick and an event.
pub open spec fn bucketize(s: Seq<(int, EventKind)>) -> Seq<(int, Seq<EventKind>)>
    decreases s.len(),
{
    if s.len() == 0 {
        Seq::empty()
    } else {
        insert_event(bucketize(s.drop_last()), s.last().0, s.last().1)
    }
}

/// Buckets in strictly ascending tick order, none empty, all within `u64`.
pub open spec fn buckets_wf(b: Seq<(int, Seq<EventKind>)>) -> bool {
    &&& forall|i: int, j: int| 0 <= i < j < b.len() ==> b[i].0 < b[j].0
    &&& forall|i: int| 0 <= i < b.len() ==> #[trigger] b[i].1.len() > 0
    &&& forall|i: int| 0 <= i < b.len() ==> 0 <= #[trigger] b[i].0 <= u64::MAX
}

/// Tick of the last bucket, or 0 when there is none.
pub open spec fn last_tick(b: Seq<(int, Seq<EventKind>)>) -> int {
    if b.len() == 0 {
        0
    } else {
        b.last().0
    }
}

/// The events of one bucket: the first `delta` ticks after the previous
/// event, the rest at once after it.
pub open spec fn encode_bucket(delta: int, events: Seq<EventKind>) -> Seq<TrackEvent> {
    events.map(|i: int, e: EventKind| TrackEvent { delta: if i == 0 { delta as u64 } else { 0 }, kind: e })
}

/// The buckets `b` flattened into one track of relative deltas.
pub open spec fn encode(b: Seq<(int, Seq<EventKind>)>) -> Seq<TrackEvent>
    decreases b.len(),
{
    if b.len() == 0 {
        Seq::empty()
    } else {
        encode(b.drop_last()) + encode_bucket(b.last().0 - last_tick(b.drop_last()), b.last().1)
    }
}

/// Sum of the deltas of a track.
pub open spec fn delta_sum(s: Seq<TrackEvent>) -> int
    decreases s.len(),
{
    if s.len() == 0 {
        0
    } else {
        delta_sum(s.drop_last()) + s.last().delta
    }
}

/// Latest tick among the events `s`, or 0 when there is none.
pub open spec fn max_tick(s: Seq<(int, EventKind)>) -> int
    decreases s.len(),
{
    if s.len() == 0 {
        0
    } else if max_tick(s.drop_last()) > s.last().0 {
        max_tick(s.drop_last())
    } else {
        s.last().0
    }
}

pub proof fn lemma_insert_at(b: Seq<(int, Seq<EventKind>)>, t: int, e: EventKind, i: int)
    requires
        0 <= i <= b.len(),
        forall|j: int| 0 <= j < i ==> #[trigger] b[j].0 < t,
        i < b.len() ==> b[i].0 >= t,
    ensures
        insert_event(b, t, e) == if i < b.len() && b[i].0 == t {
            b.update(i, (t, b[i].1.push(e)))
        } else {
            b.insert(i, (t, seq![e]))
        },
    decreases i,
{
    if i == 0 {
        if b.len() > 0 && b[0].0 == t {
        } else if b.len() == 0 {
            assert(b.insert(0, (t, seq![e])) =~= seq![(t, seq![e])]);
        } else {
            assert(b.insert(0, (t, seq![e])) =~= seq![(t, seq![e])] + b);
        }
    } else {
        let r = b.drop_first();
        assert(b[0].0 < t);
        assert forall|j: int| 0 <= j < i - 1 implies #[trigger] r[j].0 < t by {
            assert(r[j] == b[j + 1]);
        }
        lemma_insert_at(r, t, e, i - 1);
        if i < b.len() && b[i].0 == t {
            assert(seq![b[0]] + r.update(i - 1, (t, r[i - 1].1.push(e))) =~= b.update(
                i,
                (t, b[i].1.push(e)),
            ));
        } else {
            assert(seq![b[0]] + r.insert(i - 1, (t, seq![e])) =~= b.insert(i, (t, seq![e])));
        }
    }
}

pub proof fn lemma_insert_wf(b: Seq<(int, Seq<EventKind>)>, t: int, e: EventKind)
    requires
        buckets_wf(b),
        0 <= t <= u64::MAX,
    ensures
        buckets_wf(insert_event(b, t, e)),
        last_tick(insert_event(b, t, e)) == if b.len() > 0 && last_tick(b) > t {
            last_tick(b)
        } else {
            t
        },
        insert_event(b, t, e).len() > 0,
    decreases b.len(),
{
    if b.len() > 0 && b[0].0 != t && t > b[0].0 {
        let r = b.drop_first();
        lemma_insert_wf(r, t, e);
        let ir = insert_event(r, t, e);
        let res = seq![b[0]] + ir;
        assert forall|i: int, j: int| 0 <= i < j < res.len() implies res[i].0 < res[j].0 by {
            if i > 0 {
                assert(res[i] == ir[i - 1]);
                assert(res[j] == ir[j - 1]);
            } else {
                assert(res[j] == ir[j - 1]);
                lemma_insert_elements(r, t, e, j - 1);
            }
        }
        assert forall|i: int| 0 <= i < res.len() implies #[trigger] res[i].1.len() > 0
            && 0 <= res[i].0 <= u64::MAX by {
            if i > 0 {
                assert(res[i] == ir[i - 1]);
            }
        }
        if r.len() > 0 {
            assert(r.last() == b.last());
        }
        assert(res.last() == ir.last());
    } else if b.len() > 0 && t < b[0].0 {
        let res = seq![(t, seq![e])] + b;
        assert forall|i: int| 0 <= i < res.len() implies #[trigger] res[i].1.len() > 0
            && 0 <= res[i].0 <= u64::MAX by {
            if i > 0 {
                assert(res[i] == b[i - 1]);
            }
        }
        assert forall|i: int, j: int| 0 <= i < j < res.len() implies res[i].0 < res[j].0 by {
            assert(res[j] == b[j - 1]);
            if i > 0 {
                assert(res[i] == b[i - 1]);
            }
        }
        assert(res.last() == b.last());
    }
}

/// Each bucket of `insert_event(b, t, e)` holds either tick `t` or a tick of `b`.
pub proof fn lemma_insert_elements(b: Seq<(int, Seq<EventKind>)>, t: int, e: EventKind, k: int)
    requires
        0 <= k < insert_event(b, t, e).len(),
    ensures
        insert_event(b, t, e)[k].0 == t || exists|j: int|
            0 <= j < b.len() && #[trigger] b[j].0 == insert_event(b, t, e)[k].0,
    decreases b.len(),
{
    if b.len() == 0 {
    } else if b[0].0 == t {
        if k > 0 {
            assert(b[k].0 == insert_event(b, t, e)[k].0);
        }
    } else if t < b[0].0 {
        if k > 0 {
            assert(b[k - 1].0 == insert_event(b, t, e)[k].0);
        }
    } else {
        let r = b.drop_first();
        if k == 0 {
            assert(b[0].0 == insert_event(b, t, e)[k].0);
        } else {
            lemma_insert_elements(r, t, e, k - 1);
            if insert_event(r, t, e)[k - 1].0 != t {
                let j = choose|j: int| 0 <= j < r.len() && #[trigger] r[j].0 == insert_event(r, t, e)[k - 1].0;
                assert(b[j + 1].0 == insert_event(b, t, e)[k].0);
            }
        }
    }
}


/// Whether every tick of `s` is a valid position.
pub open spec fn ticks_in_range(s: Seq<(int, EventKind)>) -> bool {
    forall|i: int| 0 <= i < s.len() ==> 0 <= #[trigger] s[i].0 <= u64::MAX
}

pub proof fn lemma_bucketize_wf(s: Seq<(int, EventKind)>)
    requires
        ticks_in_range(s),
    ensures
        buckets_wf(bucketize(s)),
        last_tick(bucketize(s)) == max_tick(s),
        s.len() > 0 ==> bucketize(s).len() > 0,
    decreases s.len(),
{
    if s.len() > 0 {
        let p = s.drop_last();
        assert(ticks_in_range(p)) by {
            assert forall|i: int| 0 <= i < p.len() implies 0 <= #[trigger] p[i].0 <= u64::MAX by {
                assert(p[i] == s[i]);
            }
        }
        lemma_bucketize_wf(p);
        assert(0 <= s[s.len() - 1].0 <= u64::MAX);
        lemma_insert_wf(bucketize(p), s.last().0, s.last().1);
        if p.len() == 0 {
            assert(bucketize(p).len() == 0);
        } else {
            lemma_max_tick_nonneg(p);
        }
    }
}

pub proof fn lemma_max_tick_nonneg(s: Seq<(int, EventKind)>)
    requires
        ticks_in_range(s),
    ensures
        max_tick(s) >= 0,
    decreases s.len(),
{
    if s.len() > 0 {
        let p = s.drop_last();
        assert(ticks_in_range(p)) by {
            assert forall|i: int| 0 <= i < p.len() implies 0 <= #[trigger] p[i].0 <= u64::MAX by {
                assert(p[i] == s[i]);
            }
        }
        lemma_max_tick_nonneg(p);
    }
}

pub proof fn lemma_delta_sum_append(a: Seq<TrackEvent>, b: Seq<TrackEvent>)
    ensures
        delta_sum(a + b) == delta_sum(a) + delta_sum(b),
    decreases b.len(),
{
    if b.len() > 0 {
        assert((a + b).drop_last() =~= a + b.drop_last());
        lemma_delta_sum_append(a, b.drop_last());
    }
}

pub proof fn lemma_delta_sum_bucket(delta: int, events: Seq<EventKind>)
    requires
        events.len() > 0,
        0 <= delta <= u64::MAX,
    ensures
        delta_sum(encode_bucket(delta, events)) == delta,
    decreases events.len(),
{
    let m = encode_bucket(delta, events);
    assert(m.last() == m[m.len() - 1]);
    assert(delta_sum(m) == delta_sum(m.drop_last()) + m.last().delta);
    if events.len() == 1 {
        assert(m.drop_last() =~= Seq::<TrackEvent>::empty());
        assert(delta_sum(m.drop_last()) == 0);
        assert(m[0].delta == delta);
    } else {
        assert(m[m.len() - 1].delta == 0);
        let p = events.drop_last();
        lemma_delta_sum_bucket(delta, p);
        assert(m.drop_last() =~= encode_bucket(delta, p));
    }
}

/// The deltas of an encoded track add up to the tick of its last event.
pub proof fn lemma_delta_sum_encode(b: Seq<(int, Seq<EventKind>)>)
    requires
        buckets_wf(b),
    ensures
        delta_sum(encode(b)) == last_tick(b),
    decreases b.len(),
{
    if b.len() > 0 {
        let p = b.drop_last();
        assert(buckets_wf(p)) by {
            assert forall|i: int| 0 <= i < p.len() implies #[trigger] p[i].1.len() > 0 by {
                assert(p[i] == b[i]);
            }
            assert forall|i: int| 0 <= i < p.len() implies 0 <= #[trigger] p[i].0 <= u64::MAX by {
                assert(p[i] == b[i]);
            }
        }
        lemma_delta_sum_encode(p);
        let d = b.last().0 - last_tick(p);
        assert(b[b.len() - 1].1.len() > 0);
        if p.len() > 0 {
            assert(p.last() == b[b.len() - 2]);
        }
        assert(0 <= b[b.len() - 1].0 <= u64::MAX);
        lemma_delta_sum_bucket(d, b.last().1);
        lemma_delta_sum_append(encode(p), encode_bucket(d, b.last().1));
    }
}

/// The absolute tick of each event of the buckets, in track order.
pub open spec fn event_ticks(b: Seq<(int, Seq<EventKind>)>) -> Seq<int>
    decreases b.len(),
{
    if b.len() == 0 {
        Seq::empty()
    } else {
        event_ticks(b.drop_last()) + Seq::new(b.last().1.len(), |j: int| b.last().0)
    }
}

pub proof fn lemma_delta_sum_bucket_prefix(delta: int, events: Seq<EventKind>, j: int)
    requires
        0 <= j < events.len(),
        0 <= delta <= u64::MAX,
    ensures
        delta_sum(encode_bucket(delta, events).take(j + 1)) == delta,
    decreases j,
{
    let m = encode_bucket(delta, events);
    let t = m.take(j + 1);
    assert(t.last() == m[j]);
    assert(delta_sum(t) == delta_sum(t.drop_last()) + t.last().delta);
    if j == 0 {
        assert(t.drop_last() =~= Seq::<TrackEvent>::empty());
        assert(delta_sum(t.drop_last()) == 0);
        assert(m[0].delta == delta);
    } else {
        assert(m[j].delta == 0);
        assert(t.drop_last() =~= m.take(j));
        lemma_delta_sum_bucket_prefix(delta, events, j - 1);
    }
}

/// Summing the deltas of an encoded track up to an event gives that
/// event's absolute tick.
pub proof fn lemma_prefix_deltas_give_ticks(b: Seq<(int, Seq<EventKind>)>)
    requires
        buckets_wf(b),
    ensures
        encode(b).len() == event_ticks(b).len(),
        forall|k: int| 0 <= k < encode(b).len() ==> delta_sum(#[trigger] encode(b).take(k + 1))
            == event_ticks(b)[k],
    decreases b.len(),
{
    if b.len() > 0 {
        let p = b.drop_last();
        assert(buckets_wf(p)) by {
            assert forall|i: int| 0 <= i < p.len() implies #[trigger] p[i].1.len() > 0 by {
                assert(p[i] == b[i]);
            }
            assert forall|i: int| 0 <= i < p.len() implies 0 <= #[trigger] p[i].0 <= u64::MAX by {
                assert(p[i] == b[i]);
            }
        }
        lemma_prefix_deltas_give_ticks(p);
        lemma_delta_sum_encode(p);
        let d = b.last().0 - last_tick(p);
        if p.len() > 0 {
            assert(p.last() == b[b.len() - 2]);
        }
        assert(0 <= b[b.len() - 1].0 <= u64::MAX);
        let ep = encode(p);
        let eb = encode_bucket(d, b.last().1);
        let tb = Seq::new(b.last().1.len(), |j: int| b.last().0);
        assert forall|k: int| 0 <= k < encode(b).len() implies delta_sum(
            #[trigger] encode(b).take(k + 1),
        ) == event_ticks(b)[k] by {
            if k < ep.len() {
                assert(encode(b).take(k + 1) =~= ep.take(k + 1));
            } else {
                let j = k - ep.len();
                assert(encode(b).take(k + 1) =~= ep + eb.take(j + 1));
                lemma_delta_sum_append(ep, eb.take(j + 1));
                lemma_delta_sum_bucket_prefix(d, b.last().1, j);
                assert(event_ticks(b)[k] == tb[j]);
            }
        }
    }
}

/// Whether the map `m` holds exactly the buckets `b`.
pub open spec fn map_matches(m: Map<u64, Vec<EventKind>>, b: Seq<(int, Seq<EventKind>)>) -> bool {
    &&& forall|k: u64| #[trigger] m.contains_key(k) ==> exists|i: int| 0 <= i < b.len() && b[i].0 == k
    &&& forall|i: int| 0 <= i < b.len() ==> #[trigger] m.contains_key(b[i].0 as u64) && m[b[i].0 as u64]@ == b[i].1
}

/// Index of the first bucket whose tick is at least `t`.
pub open spec fn first_at_least(b: Seq<(int, Seq<EventKind>)>, t: int) -> int
    decreases b.len(),
{
    if b.len() == 0 || b[0].0 >= t {
        0
    } else {
        1 + first_at_least(b.drop_first(), t)
    }
}

pub proof fn lemma_first_at_least(b: Seq<(int, Seq<EventKind>)>, t: int)
    ensures
        0 <= first_at_least(b, t) <= b.len(),
        forall|j: int| 0 <= j < first_at_least(b, t) ==> #[trigger] b[j].0 < t,
        first_at_least(b, t) < b.len() ==> b[first_at_least(b, t)].0 >= t,
    decreases b.len(),
{
    if b.len() > 0 && b[0].0 < t {
        let r = b.drop_first();
        lemma_first_at_least(r, t);
        assert forall|j: int| 0 <= j < first_at_least(b, t) implies #[trigger] b[j].0 < t by {
            if j > 0 {
                assert(b[j] == r[j - 1]);
            }
        }
    }
}

/// Two strictly increasing sequences with the same elements are equal.
pub proof fn lemma_sorted_same_elements(s1: Seq<int>, s2: Seq<int>)
    requires
        forall|i: int, j: int| 0 <= i < j < s1.len() ==> s1[i] < s1[j],
        forall|i: int, j: int| 0 <= i < j < s2.len() ==> s2[i] < s2[j],
        forall|x: int| s1.contains(x) <==> s2.contains(x),
    ensures
        s1 == s2,
    decreases s1.len() + s2.len(),
{
    if s1.len() == 0 {
        if s2.len() > 0 {
            assert(s2.contains(s2[0]));
        }
        assert(s1 =~= s2);
    } else if s2.len() == 0 {
        assert(s1.contains(s1[0]));
    } else {
        assert(s1.contains(s1[0]));
        assert(s2.contains(s2[0]));
        let i1 = choose|i: int| 0 <= i < s2.len() && s2[i] == s1[0];
        let i2 = choose|i: int| 0 <= i < s1.len() && s1[i] == s2[0];
        if i1 > 0 {
            assert(s2[0] < s2[i1]);
        }
        if i2 > 0 {
            assert(s1[0] < s1[i2]);
        }
        assert(s1[0] == s2[0]);
        let r1 = s1.drop_first();
        let r2 = s2.drop_first();
        assert forall|x: int| r1.contains(x) <==> r2.contains(x) by {
            if r1.contains(x) {
                let i = choose|i: int| 0 <= i < r1.len() && r1[i] == x;
                assert(s1[i + 1] == x && s1[0] < x);
                assert(s2.contains(x));
                let j = choose|j: int| 0 <= j < s2.len() && s2[j] == x;
                assert(j > 0);
                assert(r2[j - 1] == x);
            }
            if r2.contains(x) {
                let i = choose|i: int| 0 <= i < r2.len() && r2[i] == x;
                assert(s2[i + 1] == x && s2[0] < x);
                assert(s1.contains(x));
                let j = choose|j: int| 0 <= j < s1.len() && s1[j] == x;
                assert(j > 0);
                assert(r1[j - 1] == x);
            }
        }
        lemma_sorted_same_elements(r1, r2);
        assert(s1 =~= seq![s1[0]] + r1);
        assert(s2 =~= seq![s2[0]] + r2);
    }
}

impl Timeline {
    pub closed spec fn view(&self) -> Seq<(int, Seq<EventKind>)> {
        bucketize(self.log@)
    }

    /// Every event added so far, with its tick, in the order of adding.
    pub closed spec fn log(&self) -> Seq<(int, EventKind)> {
        self.log@
    }

    pub closed spec fn wf(&self) -> bool {
        &&& buckets_wf(self@)
        &&& ticks_in_range(self.log@)
        &&& map_matches(self.map@, self@)
    }

    /// A timeline with no events.
    pub fn new() -> (r: Timeline)
        ensures
            r.wf(),
            r.log() == Seq::<(int, EventKind)>::empty(),
    {
        let r = Timeline { map: BTreeMap::new(), log: Ghost(Seq::empty()) };
        assert(r@ =~= Seq::<(int, Seq<EventKind>)>::empty());
        r
    }

    /// Adds `e` at tick position `tick`, after the events already there.
    pub fn insert(&mut self, tick: u64, e: EventKind)
        requires
            old(self).wf(),
        ensures
            final(self).wf(),
            final(self).log() == old(self).log().push((tick as int, e)),
    {
        let ghost b = self@;
        let ghost l = self.log@;
        let ghost m0 = self.map@;
        let ghost t = tick as int;
        let ghost i = first_at_least(b, t);
        proof {
            lemma_first_at_least(b, t);
            lemma_insert_at(b, t, e, i);
            lemma_insert_wf(b, t, e);
        }
        let v = match self.map.remove(&tick) {
            Some(mut v) => {
                proof {
                    let j = choose|j: int| 0 <= j < b.len() && b[j].0 == tick;
                    if j < i {
                    } else if j > i {
                        assert(b[i].0 < b[j].0);
                    }
                    assert(b[i].0 == t);
                    assert(m0.contains_key(b[i].0 as u64));
                    assert(m0[tick] == v);
                    assert(v@ == b[i].1);
                }
                v.push(e);
                assert(v@ == b[i].1.push(e));
                v
            },
            None => {
                proof {
                    if i < b.len() && b[i].0 == t {
                        assert(m0.contains_key(b[i].0 as u64));
                    }
                }
                let mut v: Vec<EventKind> = Vec::new();
                v.push(e);
                v
            },
        };
        self.map.insert(tick, v);
        self.log = Ghost(l.push((tick as int, e)));
        assert(self.log@.drop_last() =~= l);
        assert(ticks_in_range(self.log@)) by {
            assert forall|j: int| 0 <= j < self.log@.len() implies 0 <= #[trigger] self.log@[j].0
                <= u64::MAX by {
                if j < l.len() {
                    assert(self.log@[j] == l[j]);
                }
            }
        }
        let ghost nb = self@;
        assert(nb == insert_event(b, t, e));
        proof {
            if i < b.len() && b[i].0 == t {
                assert forall|k: u64| #[trigger] self.map@.contains_key(k) implies exists|q: int|
                    0 <= q < nb.len() && nb[q].0 == k by {
                    if k != tick {
                        let q = choose|q: int| 0 <= q < b.len() && b[q].0 == k;
                        assert(nb[q].0 == k);
                    } else {
                        assert(nb[i].0 == k);
                    }
                }
                assert forall|q: int| 0 <= q < nb.len() implies #[trigger] self.map@.contains_key(nb[q].0 as u64)
                    && self.map@[nb[q].0 as u64]@ == nb[q].1 by {
                    if q != i {
                        assert(nb[q] == b[q]);
                        assert(b[q].0 != t);
                        assert(m0.contains_key(b[q].0 as u64));
                    } else {
                        assert(nb[q].1 =~= v@);
                    }
                }
            } else {
                assert forall|k: u64| #[trigger] self.map@.contains_key(k) implies exists|q: int|
                    0 <= q < nb.len() && nb[q].0 == k by {
                    if k != tick {
                        let q = choose|q: int| 0 <= q < b.len() && b[q].0 == k;
                        if q < i {
                            assert(nb[q].0 == k);
                        } else {
                            assert(nb[q + 1].0 == k);
                        }
                    } else {
                        assert(nb[i].0 == k);
                    }
                }
                assert forall|q: int| 0 <= q < nb.len() implies #[trigger] self.map@.contains_key(nb[q].0 as u64)
                    && self.map@[nb[q].0 as u64]@ == nb[q].1 by {
                    if q < i {
                        assert(nb[q] == b[q]);
                        assert(m0.contains_key(b[q].0 as u64));
                    } else if q > i {
                        assert(nb[q] == b[q - 1]);
                        assert(b[q - 1].0 >= t);
                        assert(b[q - 1].0 != t);
                        assert(m0.contains_key(b[q - 1].0 as u64));
                    } else {
                        assert(nb[q].1 =~= v@);
                    }
                }
            }
        }
        assert(forall|k: u64| #[trigger] self.map@.contains_key(k) ==> exists|q: int|
            0 <= q < nb.len() && nb[q].0 == k);
        assert(map_matches(self.map@, nb));
    }

    /// The events flattened into one track: positions in ascending order,
    /// each event `delta` ticks after the one before it, events at one
    /// position in the order they were added.
    pub fn to_track(&self) -> (r: Vec<TrackEvent>)
        requires
            self.wf(),
        ensures
            r@ == encode(bucketize(self.log())),
    {
        let ghost b = self@;
        let iter = self.map.iter();
        let ghost rem = iter.remaining();
        proof {
            let rk = rem.map_values(|kv: (&u64, &Vec<EventKind>)| *kv.0 as int);
            let ks = rem.map_values(|kv: (&u64, &Vec<EventKind>)| *kv.0);
            let bk = b.map_values(|x: (int, Seq<EventKind>)| x.0);
            assert(vstd::std_specs::btree::increasing_seq(ks));
            assert forall|i: int, j: int| 0 <= i < j < rk.len() implies rk[i] < rk[j] by {
                assert(ks[i].cmp_spec(&ks[j]) is Less);
            }
            assert forall|x: int| rk.contains(x) <==> bk.contains(x) by {
                if rk.contains(x) {
                    let i = choose|i: int| 0 <= i < rk.len() && rk[i] == x;
                    assert(self.map@.contains_key(*rem[i].0));
                    let q = choose|q: int| 0 <= q < b.len() && b[q].0 == *rem[i].0;
                    assert(bk[q] == x);
                }
                if bk.contains(x) {
                    let q = choose|q: int| 0 <= q < bk.len() && bk[q] == x;
                    let k = b[q].0 as u64;
                    assert(self.map@.contains_key(k));
                    assert(rem.contains((&k, &self.map@[k])));
                    let i = choose|i: int| 0 <= i < rem.len() && rem[i] == (&k, &self.map@[k]);
                    assert(rk[i] == x);
                }
            }
            lemma_sorted_same_elements(rk, bk);
            assert forall|j: int| 0 <= j < b.len() implies *#[trigger] rem[j].0 as int == b[j].0 && (*rem[j].1)@ == b[j].1 by {
                assert(rk[j] == bk[j]);
                assert(self.map@.contains_key(*rem[j].0));
                assert(self.map@[*rem[j].0] == *rem[j].1);
                assert(self.map@.contains_key(b[j].0 as u64));
                assert(b[j].0 as u64 == *rem[j].0);
            }
        }
        let mut out: Vec<TrackEvent> = Vec::new();
        let mut prev: u64 = 0;
        for kv in it: iter
            invariant
                it.seq() == rem,
                rem.len() == b.len(),
                b == self@,
                self.wf(),
                forall|j: int| 0 <= j < b.len() ==> *#[trigger] rem[j].0 as int == b[j].0 && (*rem[j].1)@ == b[j].1,
                out@ == encode(b.take(it.index() as int)),
                prev == last_tick(b.take(it.index() as int)),
        {
            let ghost i = it.index() as int;
            let ghost pre = b.take(i);
            let tick = *kv.0;
            let events = kv.1;
            proof {
                if i > 0 {
                    assert(pre.last() == b[i - 1]);
                    assert(b[i - 1].0 < b[i].0);
                }
            }
            let delta = tick - prev;
            let m = events.len();
            let ghost evs = b[i].1;
            let mut k: usize = 0;
            while k < m
                invariant
                    k <= m == events@.len(),
                    evs == events@,
                    out@ == encode(pre) + encode_bucket(delta as int, evs).take(k as int),
                decreases m - k,
            {
                let d: u64 = if k == 0 {
                    delta
                } else {
                    0
                };
                out.push(TrackEvent { delta: d, kind: events[k] });
                k = k + 1;
                assert(out@ =~= encode(pre) + encode_bucket(delta as int, evs).take(k as int));
            }
            prev = tick;
            assert(b.take(i + 1).drop_last() =~= pre);
            assert(encode_bucket(delta as int, evs).take(m as int) =~= encode_bucket(delta as int, evs));
        }
        assert(b.take(b.len() as int) =~= b);
        out
    }
}

} // verus!
