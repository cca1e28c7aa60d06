use vstd::prelude::*;
use crate::decimal::{Decimal, parse_decimal, parse_decimal_spec, trim, chars_of, trimmed_bounds};
use crate::fields::{check_order, order_failure, order_run, text_is};
use crate::pitch::is_step;
use crate::score::{
    Attributes, Backup, Barline, Chord, Clef, Direction, Key, Note, NoteCategory, Pitch, Print, Rest,
    Sound, StartStop, SystemLayout, SystemMargins, Tie, Time,
};
use crate::schedule::{item_wf, items_wf};
use crate::score::{
    Creator, Encoding, Identification, Measure, MeasureItem, Part, PartList, ScorePartwise, Supports,
};
use crate::tokens::{
    Token, element_end, last_named, text_before, children_before, start_name, is_child,
    find_end, last_child, element_text, children_of, holds_indices, lemma_named_before,
    lemma_children_before, lemma_inner_closes, attr_of, attribute, starts,
};

verus! {

/// A field that a container requires.
#[derive(Clone, Copy, Debug, PartialEq, Eq, Structural)]
pub enum Field {
    PartList,
    Id,
    Number,
    Step,
    Octave,
    Duration,
    Beats,
    BeatType,
    Sign,
    Element,
    Type,
    LeftMargin,
    RightMargin,
}

/// Why a document could not be read as a score. `element` is the index of
/// the offending element's start token.
#[derive(Clone, Copy, Debug, PartialEq, Eq, Structural)]
pub enum BuildError {
    /// The input ended inside an element, or held no element.
    UnexpectedEndOfInput,
    /// The root element is not a partwise score.
    UnexpectedRoot,
    /// A required field is absent.
    MissingField { element: usize, field: Field },
    /// A required field does not read as a value of its kind.
    InvalidField { element: usize, field: Field },
    /// A child came after one that must follow it.
    OutOfOrderField { element: usize },
}

/// Containers whose children have a declared order.
#[derive(Clone, Copy, Debug, PartialEq, Eq, Structural)]
pub enum Container {
    Score,
    Attributes,
    Pitch,
}

/// Whether each declared child kind of `c` may repeat, in declared order.
pub open spec fn declared(c: Container) -> Seq<bool> {
    match c {
        Container::Score => seq![false, false, false, false, false, true, false, true],
        Container::Attributes => seq![false, true, true, true],
        Container::Pitch => seq![false, false, false],
    }
}

/// The declared kind of a child named `name` of container `c`; `None` for a
/// child that is not declared, which is skipped.
pub open spec fn field_kind(c: Container, name: Seq<char>) -> Option<usize> {
    match c {
        Container::Score => if name == "work"@ {
            Some(0usize)
        } else if name == "movement-number"@ {
            Some(1usize)
        } else if name == "movement-title"@ {
            Some(2usize)
        } else if name == "identification"@ {
            Some(3usize)
        } else if name == "defaults"@ {
            Some(4usize)
        } else if name == "credit"@ {
            Some(5usize)
        } else if name == "part-list"@ {
            Some(6usize)
        } else if name == "part"@ {
            Some(7usize)
        } else {
            None
        },
        Container::Attributes => if name == "divisions"@ {
            Some(0usize)
        } else if name == "key"@ {
            Some(1usize)
        } else if name == "time"@ {
            Some(2usize)
        } else if name == "clef"@ {
            Some(3usize)
        } else {
            None
        },
        Container::Pitch => if name == "step"@ {
            Some(0usize)
        } else if name == "alter"@ {
            Some(1usize)
        } else if name == "octave"@ {
            Some(2usize)
        } else {
            None
        },
    }
}

pub fn declared_kinds(c: Container) -> (r: Vec<bool>)
    ensures
        r@ == declared(c),
{
    let r = match c {
        Container::Score => vec![false, false, false, false, false, true, false, true],
        Container::Attributes => vec![false, true, true, true],
        Container::Pitch => vec![false, false, false],
    };
    assert(r@ =~= declared(c));
    r
}

/// The declared kind of a child named `name` of container `c`.
pub fn field_kind_of(c: Container, name: &str) -> (r: Option<usize>)
    ensures
        r == field_kind(c, name@),
{
    match c {
        Container::Score => if text_is(name, "work") {
            Some(0)
        } else if text_is(name, "movement-number") {
            Some(1)
        } else if text_is(name, "movement-title") {
            Some(2)
        } else if text_is(name, "identification") {
            Some(3)
        } else if text_is(name, "defaults") {
            Some(4)
        } else if text_is(name, "credit") {
            Some(5)
        } else if text_is(name, "part-list") {
            Some(6)
        } else if text_is(name, "part") {
            Some(7)
        } else {
            None
        },
        Container::Attributes => if text_is(name, "divisions") {
            Some(0)
        } else if text_is(name, "key") {
            Some(1)
        } else if text_is(name, "time") {
            Some(2)
        } else if text_is(name, "clef") {
            Some(3)
        } else {
            None
        },
        Container::Pitch => if text_is(name, "step") {
            Some(0)
        } else if text_is(name, "alter") {
            Some(1)
        } else if text_is(name, "octave") {
            Some(2)
        } else {
            None
        },
    }
}

/// The declared kinds of the children of the element from `i` to `e`.
pub open spec fn child_kinds(tokens: Seq<Token>, i: int, e: int, c: Container) -> Seq<Option<usize>> {
    children_before(tokens, i, e).map_values(|j: int| field_kind(c, start_name(tokens[j])))
}

/// Whether the children of the element from `i` to `e` come in the order
/// that container `c` declares.
pub open spec fn in_order(tokens: Seq<Token>, i: int, e: int, c: Container) -> bool {
    order_run(declared(c), child_kinds(tokens, i, e, c), 0) is Some
}

proof fn lemma_field_kind_bound(c: Container, name: Seq<char>)
    ensures
        field_kind(c, name) matches Some(k) ==> k < declared(c).len(),
{
}

/// The first child of the element from `i` to `e` that comes too late for
/// the order that container `c` declares.
pub open spec fn misplaced_child(tokens: Seq<Token>, i: int, e: int, c: Container) -> int {
    children_before(tokens, i, e)[order_failure(declared(c), child_kinds(tokens, i, e, c))]
}

/// Checks that the children of the element from `i` to `e` come in the
/// order that container `c` declares.
pub fn check_children_order(tokens: &Vec<Token>, i: usize, e: usize, c: Container) -> (r: Result<
    (),
    BuildError,
>)
    requires
        element_end(tokens@, i as int) == Some(e as int),
    ensures
        r is Ok <==> in_order(tokens@, i as int, e as int, c),
        r matches Err(x) ==> x == (BuildError::OutOfOrderField {
            element: misplaced_child(tokens@, i as int, e as int, c) as usize,
        }),
{
    let cs = children_of(tokens, i, e, None);
    let ghost sp = children_before(tokens@, i as int, e as int);
    proof {
        crate::tokens::lemma_close_search(tokens@, i as int, i + 1, e as int);
    }
    let mut kinds: Vec<Option<usize>> = Vec::new();
    let n = cs.len();
    let mut q: usize = 0;
    while q < n
        invariant
            q <= n == cs@.len(),
            holds_indices(cs@, sp),
            sp == children_before(tokens@, i as int, e as int),
            element_end(tokens@, i as int) == Some(e as int),
            e < tokens@.len(),
            kinds@ == child_kinds(tokens@, i as int, e as int, c).take(q as int),
        decreases n - q,
    {
        proof {
            lemma_children_before(tokens@, i as int, e as int, q as int);
        }
        let j = cs[q];
        assert(j as int == sp[q as int]);
        let k = match &tokens[j] {
            Token::Start { name, .. } => field_kind_of(c, name.as_str()),
            _ => None,
        };
        kinds.push(k);
        q = q + 1;
        assert(kinds@ =~= child_kinds(tokens@, i as int, e as int, c).take(q as int));
    }
    assert(kinds@ =~= child_kinds(tokens@, i as int, e as int, c));
    assert forall|x: int| 0 <= x < kinds@.len() implies (#[trigger] kinds@[x] matches Some(k) ==> k
        < declared(c).len()) by {
        lemma_field_kind_bound(c, start_name(tokens@[sp[x]]));
    }
    match check_order(declared_kinds(c), &kinds) {
        Ok(()) => Ok(()),
        Err(q) => {
            proof {
                lemma_children_before(tokens@, i as int, e as int, q as int);
            }
            Err(BuildError::OutOfOrderField { element: cs[q] })
        },
    }
}

/// The character data of the element starting at `c`.
pub open spec fn text_of(tokens: Seq<Token>, c: int) -> Seq<char> {
    text_before(tokens, c, element_end(tokens, c).unwrap())
}

/// The text of the last child named `name` of the element from `i` to `e`.
pub open spec fn child_text(tokens: Seq<Token>, i: int, e: int, name: Seq<char>) -> Option<Seq<char>> {
    match last_named(tokens, i, e, name) {
        Some(c) => Some(text_of(tokens, c)),
        None => None,
    }
}

/// The number in the last child named `name`; `None` when there is no such
/// child or its text is not a number.
pub open spec fn child_number(tokens: Seq<Token>, i: int, e: int, name: Seq<char>) -> Option<Decimal> {
    match child_text(tokens, i, e, name) {
        Some(t) => parse_decimal_spec(t),
        None => None,
    }
}

pub open spec fn opt_view(o: Option<String>) -> Option<Seq<char>> {
    match o {
        Some(s) => Some(s@),
        None => None,
    }
}

/// The last child named `name` of the element from `i` to `e`, and where it
/// ends.
pub fn child_span(tokens: &Vec<Token>, i: usize, e: usize, name: &str) -> (r: Option<(usize, usize)>)
    requires
        element_end(tokens@, i as int) == Some(e as int),
    ensures
        r is None <==> last_named(tokens@, i as int, e as int, name@) is None,
        r matches Some((c, ce)) ==> last_named(tokens@, i as int, e as int, name@) == Some(c as int)
            && element_end(tokens@, c as int) == Some(ce as int) && i < c < ce < e
            && start_name(tokens@[c as int]) == name@,
{
    match last_child(tokens, i, e, name) {
        Some(c) => {
            proof {
                let s = crate::tokens::named_before(tokens@, i as int, e as int, name@);
                lemma_named_before(tokens@, i as int, e as int, name@, s.len() - 1);
                lemma_inner_closes(tokens@, i as int, e as int, c as int);
            }
            match find_end(tokens, c) {
                Some(ce) => Some((c, ce)),
                None => None,
            }
        },
        None => None,
    }
}

/// The text of the last child named `name` of the element from `i` to `e`.
pub fn child_string(tokens: &Vec<Token>, i: usize, e: usize, name: &str) -> (r: Option<String>)
    requires
        element_end(tokens@, i as int) == Some(e as int),
    ensures
        opt_view(r) == child_text(tokens@, i as int, e as int, name@),
{
    match child_span(tokens, i, e, name) {
        Some((c, ce)) => Some(element_text(tokens, c, ce)),
        None => None,
    }
}

/// The number in the last child named `name` of the element from `i` to `e`.
pub fn child_decimal(tokens: &Vec<Token>, i: usize, e: usize, name: &str) -> (r: Option<Decimal>)
    requires
        element_end(tokens@, i as int) == Some(e as int),
    ensures
        r == child_number(tokens@, i as int, e as int, name@),
        r matches Some(d) ==> d.wf(),
{
    match child_string(tokens, i, e, name) {
        Some(t) => parse_decimal(t.as_str()),
        None => None,
    }
}

/// The step that a text names: one letter from A to G, with optional
/// surrounding whitespace.
pub open spec fn step_of(t: Seq<char>) -> Option<char> {
    let s = trim(t);
    if s.len() == 1 && is_step(s[0]) {
        Some(s[0])
    } else {
        None
    }
}

/// The octave that a text names: a whole number from 0 to 9.
pub open spec fn octave_of(t: Seq<char>) -> Option<u8> {
    match parse_decimal_spec(t) {
        Some(d) => if !d.negative && d.scale == 0 && d.units <= 9 {
            Some(d.units as u8)
        } else {
            None
        },
        None => None,
    }
}

pub fn read_step(t: &str) -> (r: Option<char>)
    ensures
        r == step_of(t@),
{
    let v = chars_of(t);
    let (a, b) = trimmed_bounds(&v);
    if b - a != 1 {
        return None;
    }
    let c = v[a];
    assert(trim(t@)[0] == c);
    if c == 'A' || c == 'B' || c == 'C' || c == 'D' || c == 'E' || c == 'F' || c == 'G' {
        Some(c)
    } else {
        None
    }
}

pub fn read_octave(t: &str) -> (r: Option<u8>)
    ensures
        r == octave_of(t@),
{
    match parse_decimal(t) {
        Some(d) => if !d.negative && d.scale == 0 && d.units <= 9 {
            Some(d.units as u8)
        } else {
            None
        },
        None => None,
    }
}


/// Whether the pitch element from `c` to `ce` is valid: its children in
/// order, and a step and an octave that read as such.
pub open spec fn pitch_valid(tokens: Seq<Token>, c: int, ce: int) -> bool {
    &&& in_order(tokens, c, ce, Container::Pitch)
    &&& child_text(tokens, c, ce, "step"@) matches Some(s) && step_of(s) is Some
    &&& child_text(tokens, c, ce, "octave"@) matches Some(o) && octave_of(o) is Some
}

/// Whether `p` is what the pitch element from `c` to `ce` holds.
pub open spec fn is_pitch_of(p: Pitch, tokens: Seq<Token>, c: int, ce: int) -> bool {
    &&& p.step == step_of(child_text(tokens, c, ce, "step"@).unwrap()).unwrap()
    &&& p.octave == octave_of(child_text(tokens, c, ce, "octave"@).unwrap()).unwrap()
    &&& p.alter == child_number(tokens, c, ce, "alter"@)
}

/// The first error among `s`, if any.
pub open spec fn first_error(s: Seq<Option<BuildError>>) -> Option<BuildError>
    decreases s.len(),
{
    if s.len() == 0 {
        None
    } else if first_error(s.drop_last()) is Some {
        first_error(s.drop_last())
    } else {
        s.last()
    }
}

/// With no error before position `q`, the first error is the one at `q`;
/// with none at all, there is no first error.
pub proof fn lemma_first_error(s: Seq<Option<BuildError>>, q: int)
    requires
        0 <= q <= s.len(),
        forall|k: int| 0 <= k < q ==> #[trigger] s[k] is None,
    ensures
        q < s.len() && s[q] is Some ==> first_error(s) == s[q],
        q == s.len() ==> first_error(s) is None,
        first_error(s.take(q)) is None,
    decreases s.len(),
{
    if s.len() > 0 {
        let p = s.drop_last();
        if q < s.len() {
            lemma_first_error(p, if q < p.len() { q } else { p.len() as int });
            if q < p.len() {
                assert(p.take(q) =~= s.take(q));
                if s[q] is Some {
                    assert(p[q] == s[q]);
                }
            } else {
                assert(p =~= s.take(q));
            }
        } else {
            lemma_first_error(p, p.len() as int);
            assert(s.take(q) =~= s);
        }
    } else {
        assert(s.take(q) =~= s);
    }
}

/// The error reading the pitch element from `i` to `e` stops with, if any:
/// the first misplaced child, then a missing or unreadable step, then
/// octave.
pub open spec fn pitch_error(tokens: Seq<Token>, i: int, e: int) -> Option<BuildError> {
    if !in_order(tokens, i, e, Container::Pitch) {
        Some(
            BuildError::OutOfOrderField {
                element: misplaced_child(tokens, i, e, Container::Pitch) as usize,
            },
        )
    } else if child_text(tokens, i, e, "step"@) is None {
        Some(BuildError::MissingField { element: i as usize, field: Field::Step })
    } else if step_of(child_text(tokens, i, e, "step"@).unwrap()) is None {
        Some(BuildError::InvalidField { element: i as usize, field: Field::Step })
    } else if child_text(tokens, i, e, "octave"@) is None {
        Some(BuildError::MissingField { element: i as usize, field: Field::Octave })
    } else if octave_of(child_text(tokens, i, e, "octave"@).unwrap()) is None {
        Some(BuildError::InvalidField { element: i as usize, field: Field::Octave })
    } else {
        None
    }
}

/// Reads the pitch element from `i` to its end `e`.
pub fn build_pitch(tokens: &Vec<Token>, i: usize, e: usize) -> (r: Result<Pitch, BuildError>)
    requires
        element_end(tokens@, i as int) == Some(e as int),
    ensures
        r is Ok <==> pitch_valid(tokens@, i as int, e as int),
        match pitch_error(tokens@, i as int, e as int) {
            Some(x) => r == Err::<Pitch, BuildError>(x),
            None => r is Ok,
        },
        r matches Ok(p) ==> is_pitch_of(p, tokens@, i as int, e as int) && (p.alter matches Some(a)
            ==> a.wf()),
        !in_order(tokens@, i as int, e as int, Container::Pitch) ==> r == Err::<Pitch, BuildError>(
            BuildError::OutOfOrderField {
                element: misplaced_child(tokens@, i as int, e as int, Container::Pitch) as usize,
            },
        ),
        in_order(tokens@, i as int, e as int, Container::Pitch) && child_text(tokens@, i as int, e as int, "step"@) is None
            ==> r == Err::<Pitch, BuildError>(BuildError::MissingField { element: i, field: Field::Step }),
{
    check_children_order(tokens, i, e, Container::Pitch)?;
    let step = match child_string(tokens, i, e, "step") {
        Some(t) => match read_step(t.as_str()) {
            Some(c) => c,
            None => {
                return Err(BuildError::InvalidField { element: i, field: Field::Step });
            },
        },
        None => {
            return Err(BuildError::MissingField { element: i, field: Field::Step });
        },
    };
    let octave = match child_string(tokens, i, e, "octave") {
        Some(t) => match read_octave(t.as_str()) {
            Some(o) => o,
            None => {
                return Err(BuildError::InvalidField { element: i, field: Field::Octave });
            },
        },
        None => {
            return Err(BuildError::MissingField { element: i, field: Field::Octave });
        },
    };
    let alter = child_decimal(tokens, i, e, "alter");
    Ok(Pitch { step, alter, octave })
}

/// How the note element from `i` to `e` is performed, after its first child.
pub open spec fn category_of(tokens: Seq<Token>, i: int, e: int) -> NoteCategory {
    let cs = children_before(tokens, i, e);
    if cs.len() > 0 && start_name(tokens[cs[0]]) == "grace"@ {
        NoteCategory::Grace
    } else if cs.len() > 0 && start_name(tokens[cs[0]]) == "cue"@ {
        NoteCategory::Cue
    } else {
        NoteCategory::Regular
    }
}

pub fn note_category(tokens: &Vec<Token>, i: usize, e: usize) -> (r: NoteCategory)
    requires
        element_end(tokens@, i as int) == Some(e as int),
    ensures
        r == category_of(tokens@, i as int, e as int),
{
    let cs = children_of(tokens, i, e, None);
    if cs.len() == 0 {
        return NoteCategory::Regular;
    }
    proof {
        lemma_children_before(tokens@, i as int, e as int, 0);
        crate::tokens::lemma_close_search(tokens@, i as int, i + 1, e as int);
    }
    let first = &tokens[cs[0]];
    if starts(first, "grace") {
        NoteCategory::Grace
    } else if starts(first, "cue") {
        NoteCategory::Cue
    } else {
        NoteCategory::Regular
    }
}

/// Where the last child named `name` of the element from `i` to `e` ends.
pub open spec fn child_end(tokens: Seq<Token>, i: int, e: int, name: Seq<char>) -> int {
    element_end(tokens, last_named(tokens, i, e, name).unwrap()).unwrap()
}

/// The value of attribute `name` of the element at `i`.
pub open spec fn attr_at(tokens: Seq<Token>, i: int, name: Seq<char>) -> Option<Seq<char>> {
    attr_of(tokens[i], name)
}

/// The kind of the last tie child of the note from `i` to `e`, when its
/// type reads `start` or `stop`.
pub open spec fn tie_kind(tokens: Seq<Token>, i: int, e: int) -> Option<StartStop> {
    match last_named(tokens, i, e, "tie"@) {
        Some(c) => if attr_at(tokens, c, "type"@) == Some("start"@) {
            Some(StartStop::Start)
        } else if attr_at(tokens, c, "type"@) == Some("stop"@) {
            Some(StartStop::Stop)
        } else {
            None
        },
        None => None,
    }
}

/// Whether the regular note element from `i` to `e` is valid: its pitch,
/// if any, valid, and a duration that reads as a number.
pub open spec fn regular_note_valid(tokens: Seq<Token>, i: int, e: int) -> bool {
    &&& last_named(tokens, i, e, "pitch"@) matches Some(c) ==> pitch_valid(
        tokens,
        c,
        child_end(tokens, i, e, "pitch"@),
    )
    &&& child_number(tokens, i, e, "duration"@) is Some
}

/// Whether `n` is what the regular note element from `i` to `e` holds.
pub open spec fn is_regular_note_of(n: Note, tokens: Seq<Token>, i: int, e: int) -> bool {
    &&& n.category == NoteCategory::Regular
    &&& n.pitch is Some <==> last_named(tokens, i, e, "pitch"@) is Some
    &&& n.pitch matches Some(p) ==> is_pitch_of(
        p,
        tokens,
        last_named(tokens, i, e, "pitch"@).unwrap(),
        child_end(tokens, i, e, "pitch"@),
    )
    &&& n.chord is Some <==> last_named(tokens, i, e, "chord"@) is Some
    &&& n.rest is Some <==> last_named(tokens, i, e, "rest"@) is Some
    &&& n.duration == child_number(tokens, i, e, "duration"@).unwrap()
    &&& n.tie is Some <==> tie_kind(tokens, i, e) is Some
    &&& n.tie matches Some(t) ==> t.kind == tie_kind(tokens, i, e).unwrap()
    &&& opt_view(n.voice) == child_text(tokens, i, e, "voice"@)
    &&& opt_view(n.kind) == child_text(tokens, i, e, "type"@)
    &&& opt_view(n.stem) == child_text(tokens, i, e, "stem"@)
}

/// The error reading the note element from `i` to `e` stops with, if any:
/// none for a grace or cue note; else that of its pitch, then a missing or
/// unreadable duration.
pub open spec fn note_error(tokens: Seq<Token>, i: int, e: int) -> Option<BuildError> {
    if category_of(tokens, i, e) != NoteCategory::Regular {
        None
    } else if last_named(tokens, i, e, "pitch"@) is Some && pitch_error(
        tokens,
        last_named(tokens, i, e, "pitch"@).unwrap(),
        child_end(tokens, i, e, "pitch"@),
    ) is Some {
        pitch_error(
            tokens,
            last_named(tokens, i, e, "pitch"@).unwrap(),
            child_end(tokens, i, e, "pitch"@),
        )
    } else if child_text(tokens, i, e, "duration"@) is None {
        Some(BuildError::MissingField { element: i as usize, field: Field::Duration })
    } else if child_number(tokens, i, e, "duration"@) is None {
        Some(BuildError::InvalidField { element: i as usize, field: Field::Duration })
    } else {
        None
    }
}

/// Reads the note element from `i` to its end `e`. A grace or cue note
/// keeps only its category.
pub fn build_note(tokens: &Vec<Token>, i: usize, e: usize) -> (r: Result<Note, BuildError>)
    requires
        element_end(tokens@, i as int) == Some(e as int),
    ensures
        category_of(tokens@, i as int, e as int) != NoteCategory::Regular ==> (r matches Ok(n)
            && n.category == category_of(tokens@, i as int, e as int) && n.pitch is None
            && n.chord is None && n.duration.units == 0),
        category_of(tokens@, i as int, e as int) == NoteCategory::Regular ==> (r is Ok
            <==> regular_note_valid(tokens@, i as int, e as int)),
        category_of(tokens@, i as int, e as int) == NoteCategory::Regular ==> (r matches Ok(n)
            ==> is_regular_note_of(n, tokens@, i as int, e as int)),
        category_of(tokens@, i as int, e as int) == NoteCategory::Regular && child_text(
            tokens@,
            i as int,
            e as int,
            "duration"@,
        ) is None && (last_named(tokens@, i as int, e as int, "pitch"@) matches Some(c)
            ==> pitch_valid(tokens@, c, child_end(tokens@, i as int, e as int, "pitch"@))) ==> r == Err::<Note, BuildError>(BuildError::MissingField { element: i, field: Field::Duration }),
        r matches Ok(n) ==> item_wf(MeasureItem::Note(n)),
        match note_error(tokens@, i as int, e as int) {
            Some(x) => r == Err::<Note, BuildError>(x),
            None => r is Ok,
        },
{
    let category = note_category(tokens, i, e);
    let attack = attribute(&tokens[i], "attack");
    let color = attribute(&tokens[i], "color");
    let default_x = attribute(&tokens[i], "default-x");
    let default_y = attribute(&tokens[i], "default-y");
    let dynamics = attribute(&tokens[i], "dynamics");
    let end_dynamics = attribute(&tokens[i], "end-dynamics");
    match category {
        NoteCategory::Regular => {},
        _ => {
            proof {
                crate::decimal::lemma_pow10_18();
            }
            return Ok(
                Note {
                    category,
                    attack,
                    color,
                    default_x,
                    default_y,
                    dynamics,
                    end_dynamics,
                    pitch: None,
                    chord: None,
                    duration: Decimal { negative: false, units: 0, scale: 0 },
                    voice: None,
                    kind: None,
                    stem: None,
                    rest: None,
                    tie: None,
                },
            );
        },
    }
    let pitch = match child_span(tokens, i, e, "pitch") {
        Some((c, ce)) => match build_pitch(tokens, c, ce) {
            Ok(p) => Some(p),
            Err(err) => {
                return Err(err);
            },
        },
        None => None,
    };
    let duration = match child_string(tokens, i, e, "duration") {
        Some(t) => match parse_decimal(t.as_str()) {
            Some(d) => d,
            None => {
                return Err(BuildError::InvalidField { element: i, field: Field::Duration });
            },
        },
        None => {
            return Err(BuildError::MissingField { element: i, field: Field::Duration });
        },
    };
    let chord = match child_span(tokens, i, e, "chord") {
        Some(_) => Some(Chord {  }),
        None => None,
    };
    let rest = match child_span(tokens, i, e, "rest") {
        Some((c, _)) => Some(Rest { measure: attribute(&tokens[c], "measure") }),
        None => None,
    };
    let tie = match child_span(tokens, i, e, "tie") {
        Some((c, _)) => {
            let kind = match attribute(&tokens[c], "type") {
                Some(v) => if text_is(v.as_str(), "start") {
                    Some(StartStop::Start)
                } else if text_is(v.as_str(), "stop") {
                    Some(StartStop::Stop)
                } else {
                    None
                },
                None => None,
            };
            match kind {
                Some(k) => Some(Tie { kind: k, time_only: attribute(&tokens[c], "time-only") }),
                None => None,
            }
        },
        None => None,
    };
    let voice = child_string(tokens, i, e, "voice");
    let kind = child_string(tokens, i, e, "type");
    let stem = child_string(tokens, i, e, "stem");
    Ok(
        Note {
            category,
            attack,
            color,
            default_x,
            default_y,
            dynamics,
            end_dynamics,
            pitch,
            chord,
            duration,
            voice,
            kind,
            stem,
            rest,
            tie,
        },
    )
}


/// The error reading the backup element from `i` to `e` stops with, if
/// any: a missing or unreadable duration.
pub open spec fn backup_error(tokens: Seq<Token>, i: int, e: int) -> Option<BuildError> {
    if child_text(tokens, i, e, "duration"@) is None {
        Some(BuildError::MissingField { element: i as usize, field: Field::Duration })
    } else if child_number(tokens, i, e, "duration"@) is None {
        Some(BuildError::InvalidField { element: i as usize, field: Field::Duration })
    } else {
        None
    }
}

/// Reads the backup element from `i` to its end `e`.
pub fn build_backup(tokens: &Vec<Token>, i: usize, e: usize) -> (r: Result<Backup, BuildError>)
    requires
        element_end(tokens@, i as int) == Some(e as int),
    ensures
        r is Ok <==> child_number(tokens@, i as int, e as int, "duration"@) is Some,
        r matches Ok(b) ==> b.duration == child_number(tokens@, i as int, e as int, "duration"@).unwrap()
            && b.duration.wf(),
        match backup_error(tokens@, i as int, e as int) {
            Some(x) => r == Err::<Backup, BuildError>(x),
            None => r is Ok,
        },
        child_text(tokens@, i as int, e as int, "duration"@) is None ==> r == Err::<Backup, BuildError>(
            BuildError::MissingField { element: i, field: Field::Duration },
        ),
{
    match child_string(tokens, i, e, "duration") {
        Some(t) => match parse_decimal(t.as_str()) {
            Some(d) => Ok(Backup { duration: d }),
            None => Err(BuildError::InvalidField { element: i, field: Field::Duration }),
        },
        None => Err(BuildError::MissingField { element: i, field: Field::Duration }),
    }
}

/// The tempo that the last sound child of the direction from `i` to `e`
/// sets, when it reads as a number.
pub open spec fn sound_tempo(tokens: Seq<Token>, i: int, e: int) -> Option<Decimal> {
    match last_named(tokens, i, e, "sound"@) {
        Some(c) => match attr_at(tokens, c, "tempo"@) {
            Some(v) => parse_decimal_spec(v),
            None => None,
        },
        None => None,
    }
}

/// Reads the direction element from `i` to its end `e`.
pub fn build_direction(tokens: &Vec<Token>, i: usize, e: usize) -> (r: Direction)
    requires
        element_end(tokens@, i as int) == Some(e as int),
    ensures
        r.sound is Some <==> last_named(tokens@, i as int, e as int, "sound"@) is Some,
        r.sound matches Some(snd) ==> snd.tempo == sound_tempo(tokens@, i as int, e as int) && (
        snd.tempo matches Some(t) ==> t.wf()),
{
    match child_span(tokens, i, e, "sound") {
        Some((c, _)) => {
            let tempo = match attribute(&tokens[c], "tempo") {
                Some(v) => parse_decimal(v.as_str()),
                None => None,
            };
            Direction { sound: Some(Sound { tempo }) }
        },
        None => Direction { sound: None },
    }
}

/// Reads the barline element from `i` to its end `e`.
pub fn build_barline(tokens: &Vec<Token>, i: usize, e: usize) -> (r: Barline)
    requires
        element_end(tokens@, i as int) == Some(e as int),
    ensures
        opt_view(r.location) == attr_at(tokens@, i as int, "location"@),
        opt_view(r.bar_style) == child_text(tokens@, i as int, e as int, "bar-style"@),
{
    Barline {
        location: attribute(&tokens[i], "location"),
        bar_style: child_string(tokens, i, e, "bar-style"),
    }
}

/// Whether the print element from `i` to `e` is valid: system margins, if
/// its system layout has them, give both margins.
pub open spec fn print_valid(tokens: Seq<Token>, i: int, e: int) -> bool {
    last_named(tokens, i, e, "system-layout"@) matches Some(c) ==> ({
        let ce = element_end(tokens, c).unwrap();
        last_named(tokens, c, ce, "system-margins"@) matches Some(m) ==> ({
            let me = element_end(tokens, m).unwrap();
            child_text(tokens, m, me, "left-margin"@) is Some && child_text(
                tokens,
                m,
                me,
                "right-margin"@,
            ) is Some
        })
    })
}

/// The error reading the print element from `i` to `e` stops with, if any:
/// a margin missing from its system margins.
pub open spec fn print_error(tokens: Seq<Token>, i: int, e: int) -> Option<BuildError> {
    let c = last_named(tokens, i, e, "system-layout"@).unwrap();
    let ce = element_end(tokens, c).unwrap();
    let m = last_named(tokens, c, ce, "system-margins"@).unwrap();
    let me = element_end(tokens, m).unwrap();
    if last_named(tokens, i, e, "system-layout"@) is None || last_named(
        tokens,
        c,
        ce,
        "system-margins"@,
    ) is None {
        None
    } else if child_text(tokens, m, me, "left-margin"@) is None {
        Some(BuildError::MissingField { element: m as usize, field: Field::LeftMargin })
    } else if child_text(tokens, m, me, "right-margin"@) is None {
        Some(BuildError::MissingField { element: m as usize, field: Field::RightMargin })
    } else {
        None
    }
}

/// Reads the print element from `i` to its end `e`.
pub fn build_print(tokens: &Vec<Token>, i: usize, e: usize) -> (r: Result<Print, BuildError>)
    requires
        element_end(tokens@, i as int) == Some(e as int),
    ensures
        r matches Ok(p) ==> (p.system_layout is Some <==> last_named(
            tokens@,
            i as int,
            e as int,
            "system-layout"@,
        ) is Some),
        r is Ok <==> print_valid(tokens@, i as int, e as int),
        match print_error(tokens@, i as int, e as int) {
            Some(x) => r == Err::<Print, BuildError>(x),
            None => r is Ok,
        },
{
    let system_layout = match child_span(tokens, i, e, "system-layout") {
        Some((c, ce)) => {
            let system_margins = match child_span(tokens, c, ce, "system-margins") {
                Some((m, me)) => {
                    let left_margin = match child_string(tokens, m, me, "left-margin") {
                        Some(t) => t,
                        None => {
                            return Err(
                                BuildError::MissingField { element: m, field: Field::LeftMargin },
                            );
                        },
                    };
                    let right_margin = match child_string(tokens, m, me, "right-margin") {
                        Some(t) => t,
                        None => {
                            return Err(
                                BuildError::MissingField { element: m, field: Field::RightMargin },
                            );
                        },
                    };
                    Some(SystemMargins { left_margin, right_margin })
                },
                None => None,
            };
            let top_system_distance = child_string(tokens, c, ce, "top-system-distance");
            Some(SystemLayout { system_margins, top_system_distance })
        },
        None => None,
    };
    Ok(Print { system_layout })
}

/// Whether the time element starting at `c` gives beats and a beat type.
pub open spec fn time_valid(tokens: Seq<Token>, c: int) -> bool {
    let ce = element_end(tokens, c).unwrap();
    child_text(tokens, c, ce, "beats"@) is Some && child_text(tokens, c, ce, "beat-type"@) is Some
}

/// Whether the clef element starting at `c` gives a sign.
pub open spec fn clef_valid(tokens: Seq<Token>, c: int) -> bool {
    child_text(tokens, c, element_end(tokens, c).unwrap(), "sign"@) is Some
}

/// Whether the attributes element from `i` to `e` is valid: its children in
/// order, and each time and clef complete.
pub open spec fn attributes_valid(tokens: Seq<Token>, i: int, e: int) -> bool {
    let ts = crate::tokens::named_before(tokens, i, e, "time"@);
    let cs = crate::tokens::named_before(tokens, i, e, "clef"@);
    &&& in_order(tokens, i, e, Container::Attributes)
    &&& forall|k: int| 0 <= k < ts.len() ==> time_valid(tokens, #[trigger] ts[k])
    &&& forall|k: int| 0 <= k < cs.len() ==> clef_valid(tokens, #[trigger] cs[k])
}

/// The error reading the time element starting at `c`, if any.
pub open spec fn time_error(tokens: Seq<Token>, c: int) -> Option<BuildError> {
    let ce = element_end(tokens, c).unwrap();
    if child_text(tokens, c, ce, "beats"@) is None {
        Some(BuildError::MissingField { element: c as usize, field: Field::Beats })
    } else if child_text(tokens, c, ce, "beat-type"@) is None {
        Some(BuildError::MissingField { element: c as usize, field: Field::BeatType })
    } else {
        None
    }
}

/// The error reading the clef element starting at `c`, if any.
pub open spec fn clef_error(tokens: Seq<Token>, c: int) -> Option<BuildError> {
    if child_text(tokens, c, element_end(tokens, c).unwrap(), "sign"@) is None {
        Some(BuildError::MissingField { element: c as usize, field: Field::Sign })
    } else {
        None
    }
}

/// The errors of the time children of the element from `i` to `e`.
pub open spec fn time_errors(tokens: Seq<Token>, i: int, e: int) -> Seq<Option<BuildError>> {
    let ts = crate::tokens::named_before(tokens, i, e, "time"@);
    Seq::new(ts.len(), |k: int| time_error(tokens, ts[k]))
}

/// The errors of the clef children of the element from `i` to `e`.
pub open spec fn clef_errors(tokens: Seq<Token>, i: int, e: int) -> Seq<Option<BuildError>> {
    let cs = crate::tokens::named_before(tokens, i, e, "clef"@);
    Seq::new(cs.len(), |k: int| clef_error(tokens, cs[k]))
}

/// The error reading the attributes element from `i` to `e` stops with, if
/// any: the first misplaced child, then the first incomplete time, then
/// the first incomplete clef.
pub open spec fn attributes_error(tokens: Seq<Token>, i: int, e: int) -> Option<BuildError> {
    if !in_order(tokens, i, e, Container::Attributes) {
        Some(
            BuildError::OutOfOrderField {
                element: misplaced_child(tokens, i, e, Container::Attributes) as usize,
            },
        )
    } else if first_error(time_errors(tokens, i, e)) is Some {
        first_error(time_errors(tokens, i, e))
    } else {
        first_error(clef_errors(tokens, i, e))
    }
}

/// Reads the attributes element from `i` to its end `e`.
pub fn build_attributes(tokens: &Vec<Token>, i: usize, e: usize) -> (r: Result<
    Attributes,
    BuildError,
>)
    requires
        element_end(tokens@, i as int) == Some(e as int),
    ensures
        r is Ok <==> attributes_valid(tokens@, i as int, e as int),
        match attributes_error(tokens@, i as int, e as int) {
            Some(x) => r == Err::<Attributes, BuildError>(x),
            None => r is Ok,
        },
        !in_order(tokens@, i as int, e as int, Container::Attributes) ==> r == Err::<
            Attributes,
            BuildError,
        >(
            BuildError::OutOfOrderField {
                element: misplaced_child(tokens@, i as int, e as int, Container::Attributes) as usize,
            },
        ),
        r matches Ok(a) ==> a.divisions == child_number(tokens@, i as int, e as int, "divisions"@)
            && (a.divisions matches Some(d) ==> d.wf()),
        r matches Ok(a) ==> a.key@.len() == crate::tokens::named_before(
            tokens@,
            i as int,
            e as int,
            "key"@,
        ).len(),
        r matches Ok(a) ==> a.time@.len() == crate::tokens::named_before(
            tokens@,
            i as int,
            e as int,
            "time"@,
        ).len(),
        r matches Ok(a) ==> a.clef@.len() == crate::tokens::named_before(
            tokens@,
            i as int,
            e as int,
            "clef"@,
        ).len(),
{
    check_children_order(tokens, i, e, Container::Attributes)?;
    proof {
        crate::tokens::lemma_close_search(tokens@, i as int, i + 1, e as int);
    }
    let divisions = child_decimal(tokens, i, e, "divisions");
    let ks = children_of(tokens, i, e, Some("key"));
    let mut key: Vec<Key> = Vec::new();
    let mut q: usize = 0;
    while q < ks.len()
        invariant
            q <= ks@.len(),
            holds_indices(ks@, crate::tokens::named_before(tokens@, i as int, e as int, "key"@)),
            element_end(tokens@, i as int) == Some(e as int),
            in_order(tokens@, i as int, e as int, Container::Attributes),
            key@.len() == q,
        decreases ks@.len() - q,
    {
        proof {
            lemma_named_before(tokens@, i as int, e as int, "key"@, q as int);
            lemma_inner_closes(tokens@, i as int, e as int, ks@[q as int] as int);
        }
        match find_end(tokens, ks[q]) {
            Some(ke) => {
                key.push(Key { fifths: child_decimal(tokens, ks[q], ke, "fifths") });
            },
            None => {
                return Err(BuildError::UnexpectedEndOfInput);
            },
        }
        q = q + 1;
    }
    let ts = children_of(tokens, i, e, Some("time"));
    let mut time: Vec<Time> = Vec::new();
    let mut q: usize = 0;
    while q < ts.len()
        invariant
            q <= ts@.len(),
            holds_indices(ts@, crate::tokens::named_before(tokens@, i as int, e as int, "time"@)),
            element_end(tokens@, i as int) == Some(e as int),
            in_order(tokens@, i as int, e as int, Container::Attributes),
            forall|k: int| 0 <= k < q ==> time_valid(tokens@, #[trigger] ts@[k] as int),
            time@.len() == q,
        decreases ts@.len() - q,
    {
        proof {
            lemma_named_before(tokens@, i as int, e as int, "time"@, q as int);
            lemma_inner_closes(tokens@, i as int, e as int, ts@[q as int] as int);
        }
        let t = ts[q];
        match find_end(tokens, t) {
            Some(te) => {
                let beats = match child_string(tokens, t, te, "beats") {
                    Some(b) => b,
                    None => {
                        proof {
                            let errs = time_errors(tokens@, i as int, e as int);
                            assert forall|k: int| 0 <= k < q implies #[trigger] errs[k] is None by {
                                assert(time_valid(tokens@, ts@[k] as int));
                            }
                            lemma_first_error(errs, q as int);
                        }
                        return Err(BuildError::MissingField { element: t, field: Field::Beats });
                    },
                };
                let beat_type = match child_string(tokens, t, te, "beat-type") {
                    Some(b) => b,
                    None => {
                        proof {
                            let errs = time_errors(tokens@, i as int, e as int);
                            assert forall|k: int| 0 <= k < q implies #[trigger] errs[k] is None by {
                                assert(time_valid(tokens@, ts@[k] as int));
                            }
                            lemma_first_error(errs, q as int);
                        }
                        return Err(BuildError::MissingField { element: t, field: Field::BeatType });
                    },
                };
                time.push(Time { beats, beat_type });
            },
            None => {
                return Err(BuildError::UnexpectedEndOfInput);
            },
        }
        q = q + 1;
    }
    let cs = children_of(tokens, i, e, Some("clef"));
    let mut clef: Vec<Clef> = Vec::new();
    let mut q: usize = 0;
    while q < cs.len()
        invariant
            q <= cs@.len(),
            holds_indices(cs@, crate::tokens::named_before(tokens@, i as int, e as int, "clef"@)),
            element_end(tokens@, i as int) == Some(e as int),
            in_order(tokens@, i as int, e as int, Container::Attributes),
            holds_indices(ts@, crate::tokens::named_before(tokens@, i as int, e as int, "time"@)),
            forall|k: int| 0 <= k < ts@.len() ==> time_valid(tokens@, #[trigger] ts@[k] as int),
            forall|k: int| 0 <= k < q ==> clef_valid(tokens@, #[trigger] cs@[k] as int),
            clef@.len() == q,
        decreases cs@.len() - q,
    {
        proof {
            lemma_named_before(tokens@, i as int, e as int, "clef"@, q as int);
            lemma_inner_closes(tokens@, i as int, e as int, cs@[q as int] as int);
        }
        let c = cs[q];
        match find_end(tokens, c) {
            Some(ce) => {
                let sign = match child_string(tokens, c, ce, "sign") {
                    Some(x) => x,
                    None => {
                        proof {
                            let terrs = time_errors(tokens@, i as int, e as int);
                            assert forall|k: int| 0 <= k < terrs.len() implies #[trigger] terrs[k] is None by {
                                assert(time_valid(tokens@, ts@[k] as int));
                            }
                            lemma_first_error(terrs, terrs.len() as int);
                            let errs = clef_errors(tokens@, i as int, e as int);
                            assert forall|k: int| 0 <= k < q implies #[trigger] errs[k] is None by {
                                assert(clef_valid(tokens@, cs@[k] as int));
                            }
                            lemma_first_error(errs, q as int);
                        }
                        return Err(BuildError::MissingField { element: c, field: Field::Sign });
                    },
                };
                clef.push(Clef { sign, line: child_decimal(tokens, c, ce, "line") });
            },
            None => {
                return Err(BuildError::UnexpectedEndOfInput);
            },
        }
        q = q + 1;
    }
    proof {
        let terrs = time_errors(tokens@, i as int, e as int);
        assert forall|k: int| 0 <= k < terrs.len() implies #[trigger] terrs[k] is None by {
            assert(time_valid(tokens@, ts@[k] as int));
        }
        lemma_first_error(terrs, terrs.len() as int);
        let errs = clef_errors(tokens@, i as int, e as int);
        assert forall|k: int| 0 <= k < errs.len() implies #[trigger] errs[k] is None by {
            assert(clef_valid(tokens@, cs@[k] as int));
        }
        lemma_first_error(errs, errs.len() as int);
    }
    Ok(Attributes { divisions, key, time, clef })
}


/// Whether a child named `name` of a measure is one of its items.
pub open spec fn is_item_name(name: Seq<char>) -> bool {
    name == "note"@ || name == "backup"@ || name == "direction"@ || name == "attributes"@ || name
        == "barline"@ || name == "print"@
}

/// The children among `cs` that are measure items, in order.
pub open spec fn item_starts(tokens: Seq<Token>, cs: Seq<int>) -> Seq<int>
    decreases cs.len(),
{
    if cs.len() == 0 {
        Seq::empty()
    } else if is_item_name(start_name(tokens[cs.last()])) {
        item_starts(tokens, cs.drop_last()).push(cs.last())
    } else {
        item_starts(tokens, cs.drop_last())
    }
}

/// Whether `item` is what the element starting at `c` holds.
pub open spec fn is_item_of(item: MeasureItem, tokens: Seq<Token>, c: int) -> bool {
    let ce = element_end(tokens, c).unwrap();
    let name = start_name(tokens[c]);
    match item {
        MeasureItem::Note(n) => {
            &&& name == "note"@
            &&& category_of(tokens, c, ce) == NoteCategory::Regular ==> is_regular_note_of(
                n,
                tokens,
                c,
                ce,
            )
            &&& category_of(tokens, c, ce) != NoteCategory::Regular ==> n.category == category_of(
                tokens,
                c,
                ce,
            ) && n.pitch is None && n.chord is None
        },
        MeasureItem::Backup(b) => name == "backup"@ && b.duration == child_number(
            tokens,
            c,
            ce,
            "duration"@,
        ).unwrap(),
        MeasureItem::Direction(d) => {
            &&& name == "direction"@
            &&& d.sound is Some <==> last_named(tokens, c, ce, "sound"@) is Some
            &&& d.sound matches Some(snd) ==> snd.tempo == sound_tempo(tokens, c, ce)
        },
        MeasureItem::Attributes(a) => name == "attributes"@ && a.divisions == child_number(
            tokens,
            c,
            ce,
            "divisions"@,
        ),
        MeasureItem::Barline(_) => name == "barline"@,
        MeasureItem::Print(_) => name == "print"@,
    }
}

/// Whether `items` are what the elements starting at `starts` hold.
pub open spec fn are_items_of(items: Seq<MeasureItem>, tokens: Seq<Token>, starts: Seq<int>) -> bool {
    &&& items.len() == starts.len()
    &&& forall|k: int| 0 <= k < items.len() ==> is_item_of(#[trigger] items[k], tokens, starts[k])
}

/// Whether the item element starting at `c` is valid.
pub open spec fn item_valid(tokens: Seq<Token>, c: int) -> bool {
    let ce = element_end(tokens, c).unwrap();
    let name = start_name(tokens[c]);
    if name == "note"@ {
        category_of(tokens, c, ce) != NoteCategory::Regular || regular_note_valid(tokens, c, ce)
    } else if name == "backup"@ {
        child_number(tokens, c, ce, "duration"@) is Some
    } else if name == "direction"@ {
        true
    } else if name == "attributes"@ {
        attributes_valid(tokens, c, ce)
    } else if name == "barline"@ {
        true
    } else if name == "print"@ {
        print_valid(tokens, c, ce)
    } else {
        true
    }
}

/// The error reading the item element starting at `c`, if any.
pub open spec fn item_error(tokens: Seq<Token>, c: int) -> Option<BuildError> {
    let ce = element_end(tokens, c).unwrap();
    let name = start_name(tokens[c]);
    if name == "note"@ {
        note_error(tokens, c, ce)
    } else if name == "backup"@ {
        backup_error(tokens, c, ce)
    } else if name == "direction"@ {
        None
    } else if name == "attributes"@ {
        attributes_error(tokens, c, ce)
    } else if name == "barline"@ {
        None
    } else if name == "print"@ {
        print_error(tokens, c, ce)
    } else {
        None
    }
}

/// A valid item reads without error.
pub proof fn lemma_item_error_none(tokens: Seq<Token>, c: int)
    requires
        item_valid(tokens, c),
    ensures
        item_error(tokens, c) is None,
{
    let ce = element_end(tokens, c).unwrap();
    let name = start_name(tokens[c]);
    if name == "note"@ {
        if category_of(tokens, c, ce) == NoteCategory::Regular && last_named(
            tokens,
            c,
            ce,
            "pitch"@,
        ) is Some {
            assert(pitch_valid(
                tokens,
                last_named(tokens, c, ce, "pitch"@).unwrap(),
                child_end(tokens, c, ce, "pitch"@),
            ));
        }
    } else if name == "backup"@ {
    } else if name == "direction"@ {
    } else if name == "attributes"@ {
        let ts = crate::tokens::named_before(tokens, c, ce, "time"@);
        let cs = crate::tokens::named_before(tokens, c, ce, "clef"@);
        let terrs = time_errors(tokens, c, ce);
        assert forall|k: int| 0 <= k < terrs.len() implies #[trigger] terrs[k] is None by {
            assert(time_valid(tokens, ts[k]));
        }
        lemma_first_error(terrs, terrs.len() as int);
        let errs = clef_errors(tokens, c, ce);
        assert forall|k: int| 0 <= k < errs.len() implies #[trigger] errs[k] is None by {
            assert(clef_valid(tokens, cs[k]));
        }
        lemma_first_error(errs, errs.len() as int);
    }
}

/// The errors of the items of the measure element from `i` to `e`.
pub open spec fn item_errors(tokens: Seq<Token>, i: int, e: int) -> Seq<Option<BuildError>> {
    let its = item_starts(tokens, children_before(tokens, i, e));
    Seq::new(its.len(), |k: int| item_error(tokens, its[k]))
}

/// The error reading the measure element from `i` to `e` stops with, if
/// any: a missing number, then the first item's error.
pub open spec fn measure_error(tokens: Seq<Token>, i: int, e: int) -> Option<BuildError> {
    if attr_at(tokens, i, "number"@) is None {
        Some(BuildError::MissingField { element: i as usize, field: Field::Number })
    } else {
        first_error(item_errors(tokens, i, e))
    }
}

/// Whether the measure element from `i` to `e` is valid: it has a number
/// and each of its items is valid.
pub open spec fn measure_valid(tokens: Seq<Token>, i: int, e: int) -> bool {
    let its = item_starts(tokens, children_before(tokens, i, e));
    &&& attr_at(tokens, i, "number"@) is Some
    &&& forall|k: int| 0 <= k < its.len() ==> item_valid(tokens, #[trigger] its[k])
}

/// The items among the first `m` children are the first items.
pub proof fn lemma_item_starts_prefix(tokens: Seq<Token>, cs: Seq<int>, m: int)
    requires
        0 <= m <= cs.len(),
    ensures
        item_starts(tokens, cs.take(m)).len() <= item_starts(tokens, cs).len(),
        forall|k: int| 0 <= k < item_starts(tokens, cs.take(m)).len() ==> #[trigger] item_starts(tokens, cs)[k]
            == item_starts(tokens, cs.take(m))[k],
    decreases cs.len(),
{
    if m == cs.len() {
        assert(cs.take(m) =~= cs);
    } else {
        let p = cs.drop_last();
        assert(p.take(m) =~= cs.take(m));
        lemma_item_starts_prefix(tokens, p, m);
    }
}

/// Whether every item of every measure holds well-formed numbers.
pub open spec fn measures_wf(ms: Seq<Measure>) -> bool {
    forall|k: int| 0 <= k < ms.len() ==> items_wf(#[trigger] ms[k].content@)
}

/// Reads the measure element from `i` to its end `e`: its items in document
/// order; children of other names are skipped.
pub fn build_measure(tokens: &Vec<Token>, i: usize, e: usize) -> (r: Result<Measure, BuildError>)
    requires
        element_end(tokens@, i as int) == Some(e as int),
    ensures
        r matches Ok(m) ==> items_wf(m.content@) && are_items_of(
            m.content@,
            tokens@,
            item_starts(tokens@, children_before(tokens@, i as int, e as int)),
        ) && opt_view(Some(m.number)) == attr_at(tokens@, i as int, "number"@),
        r is Ok <==> measure_valid(tokens@, i as int, e as int),
        match measure_error(tokens@, i as int, e as int) {
            Some(x) => r == Err::<Measure, BuildError>(x),
            None => r is Ok,
        },
        attr_at(tokens@, i as int, "number"@) is None ==> r == Err::<Measure, BuildError>(
            BuildError::MissingField { element: i, field: Field::Number },
        ),
{
    let number = match attribute(&tokens[i], "number") {
        Some(n) => n,
        None => {
            return Err(BuildError::MissingField { element: i, field: Field::Number });
        },
    };
    proof {
        crate::tokens::lemma_close_search(tokens@, i as int, i + 1, e as int);
    }
    let cs = children_of(tokens, i, e, None);
    let ghost sp = children_before(tokens@, i as int, e as int);
    let mut content: Vec<MeasureItem> = Vec::new();
    let n = cs.len();
    let mut q: usize = 0;
    while q < n
        invariant
            q <= n == cs@.len(),
            holds_indices(cs@, sp),
            sp == children_before(tokens@, i as int, e as int),
            element_end(tokens@, i as int) == Some(e as int),
            e < tokens@.len(),
            items_wf(content@),
            are_items_of(content@, tokens@, item_starts(tokens@, sp.take(q as int))),
            attr_at(tokens@, i as int, "number"@) is Some,
            forall|k: int| 0 <= k < item_starts(tokens@, sp.take(q as int)).len() ==> item_valid(
                tokens@,
                #[trigger] item_starts(tokens@, sp.take(q as int))[k],
            ),
        decreases n - q,
    {
        proof {
            lemma_children_before(tokens@, i as int, e as int, q as int);
            lemma_inner_closes(tokens@, i as int, e as int, sp[q as int]);
            assert(sp.take(q + 1).drop_last() =~= sp.take(q as int));
            assert(sp.take(q + 1).last() == sp[q as int]);
        }
        let c = cs[q];
        let ce = match find_end(tokens, c) {
            Some(x) => x,
            None => {
                return Err(BuildError::UnexpectedEndOfInput);
            },
        };
        let t = &tokens[c];
        let built = if starts(t, "note") {
            match build_note(tokens, c, ce) {
                Ok(n) => Ok(Some(MeasureItem::Note(n))),
                Err(err) => Err(err),
            }
        } else if starts(t, "backup") {
            match build_backup(tokens, c, ce) {
                Ok(b) => Ok(Some(MeasureItem::Backup(b))),
                Err(err) => Err(err),
            }
        } else if starts(t, "direction") {
            Ok(Some(MeasureItem::Direction(build_direction(tokens, c, ce))))
        } else if starts(t, "attributes") {
            match build_attributes(tokens, c, ce) {
                Ok(a) => Ok(Some(MeasureItem::Attributes(a))),
                Err(err) => Err(err),
            }
        } else if starts(t, "barline") {
            Ok(Some(MeasureItem::Barline(build_barline(tokens, c, ce))))
        } else if starts(t, "print") {
            match build_print(tokens, c, ce) {
                Ok(p) => Ok(Some(MeasureItem::Print(p))),
                Err(err) => Err(err),
            }
        } else {
            Ok(None)
        };
        assert(built is Err <==> !item_valid(tokens@, c as int));
        assert(built matches Err(x) ==> item_error(tokens@, c as int) == Some(x));
        assert(built is Ok ==> item_error(tokens@, c as int) is None);
        let item = match built {
            Ok(x) => x,
            Err(err) => {
                proof {
                    lemma_item_starts_prefix(tokens@, sp, q + 1);
                    let its = item_starts(tokens@, sp);
                    let k = item_starts(tokens@, sp.take(q as int)).len() as int;
                    assert(item_starts(tokens@, sp.take(q + 1)) == item_starts(
                        tokens@,
                        sp.take(q as int),
                    ).push(c as int));
                    assert(its[k] == c as int);
                    assert(!measure_valid(tokens@, i as int, e as int));
                    let errs = item_errors(tokens@, i as int, e as int);
                    assert forall|j: int| 0 <= j < k implies #[trigger] errs[j] is None by {
                        assert(its[j] == item_starts(tokens@, sp.take(q as int))[j]);
                        assert(item_valid(tokens@, its[j]));
                        lemma_item_error_none(tokens@, its[j]);
                    }
                    lemma_first_error(errs, k);
                }
                return Err(err);
            },
        };
        let ghost starts_before = item_starts(tokens@, sp.take(q as int));
        match item {
            Some(it) => {
                assert(is_item_of(it, tokens@, c as int));
                let ghost before = content@;
                content.push(it);
                assert forall|k: int| 0 <= k < content@.len() implies item_wf(
                    #[trigger] content@[k],
                ) by {
                    if k < before.len() {
                        assert(content@[k] == before[k]);
                    }
                }
                assert forall|k: int| 0 <= k < content@.len() implies is_item_of(
                    #[trigger] content@[k],
                    tokens@,
                    starts_before.push(c as int)[k],
                ) by {
                    if k < before.len() {
                        assert(content@[k] == before[k]);
                    }
                }
            },
            None => {},
        }
        q = q + 1;
    }
    assert(sp.take(n as int) =~= sp);
    assert(measure_valid(tokens@, i as int, e as int));
    proof {
        let its = item_starts(tokens@, sp);
        let errs = item_errors(tokens@, i as int, e as int);
        assert forall|j: int| 0 <= j < errs.len() implies #[trigger] errs[j] is None by {
            assert(item_valid(tokens@, its[j]));
            lemma_item_error_none(tokens@, its[j]);
        }
        lemma_first_error(errs, errs.len() as int);
    }
    Ok(
        Measure {
            number,
            id: attribute(&tokens[i], "id"),
            implicit: attribute(&tokens[i], "implicit"),
            non_controlling: attribute(&tokens[i], "non-controlling"),
            text: attribute(&tokens[i], "text"),
            width: attribute(&tokens[i], "width"),
            content,
        },
    )
}

/// Whether `m` is what the measure element starting at `c` holds.
pub open spec fn is_measure_of(m: Measure, tokens: Seq<Token>, c: int) -> bool {
    let ce = element_end(tokens, c).unwrap();
    &&& are_items_of(m.content@, tokens, item_starts(tokens, children_before(tokens, c, ce)))
    &&& opt_view(Some(m.number)) == attr_at(tokens, c, "number"@)
}

/// Whether the part element from `i` to `e` is valid: it has an id and
/// each of its measures is valid.
pub open spec fn part_valid(tokens: Seq<Token>, i: int, e: int) -> bool {
    let ms = crate::tokens::named_before(tokens, i, e, "measure"@);
    &&& attr_at(tokens, i, "id"@) is Some
    &&& forall|k: int| 0 <= k < ms.len() ==> measure_valid(
        tokens,
        #[trigger] ms[k],
        element_end(tokens, ms[k]).unwrap(),
    )
}

/// A valid measure reads without error.
pub proof fn lemma_measure_error_none(tokens: Seq<Token>, i: int, e: int)
    requires
        measure_valid(tokens, i, e),
    ensures
        measure_error(tokens, i, e) is None,
{
    let its = item_starts(tokens, children_before(tokens, i, e));
    let errs = item_errors(tokens, i, e);
    assert forall|j: int| 0 <= j < errs.len() implies #[trigger] errs[j] is None by {
        assert(item_valid(tokens, its[j]));
        lemma_item_error_none(tokens, its[j]);
    }
    lemma_first_error(errs, errs.len() as int);
}

/// The errors of the measures of the part element from `i` to `e`.
pub open spec fn measure_errors(tokens: Seq<Token>, i: int, e: int) -> Seq<Option<BuildError>> {
    let ms = crate::tokens::named_before(tokens, i, e, "measure"@);
    Seq::new(ms.len(), |k: int| measure_error(tokens, ms[k], element_end(tokens, ms[k]).unwrap()))
}

/// The error reading the part element from `i` to `e` stops with, if any:
/// a missing id, then the first measure's error.
pub open spec fn part_error(tokens: Seq<Token>, i: int, e: int) -> Option<BuildError> {
    if attr_at(tokens, i, "id"@) is None {
        Some(BuildError::MissingField { element: i as usize, field: Field::Id })
    } else {
        first_error(measure_errors(tokens, i, e))
    }
}

/// A valid part reads without error.
pub proof fn lemma_part_error_none(tokens: Seq<Token>, i: int, e: int)
    requires
        part_valid(tokens, i, e),
    ensures
        part_error(tokens, i, e) is None,
{
    let ms = crate::tokens::named_before(tokens, i, e, "measure"@);
    let errs = measure_errors(tokens, i, e);
    assert forall|j: int| 0 <= j < errs.len() implies #[trigger] errs[j] is None by {
        lemma_measure_error_none(tokens, ms[j], element_end(tokens, ms[j]).unwrap());
    }
    lemma_first_error(errs, errs.len() as int);
}

/// Whether `p`'s measures are what the measure children of the part element
/// starting at `c` hold, in order.
pub open spec fn is_part_of(p: Part, tokens: Seq<Token>, c: int) -> bool {
    let ms = crate::tokens::named_before(tokens, c, element_end(tokens, c).unwrap(), "measure"@);
    &&& p.measure@.len() == ms.len()
    &&& forall|k: int| 0 <= k < ms.len() ==> is_measure_of(#[trigger] p.measure@[k], tokens, ms[k])
}

/// Reads the part element from `i` to its end `e`: its measures in order.
pub fn build_part(tokens: &Vec<Token>, i: usize, e: usize) -> (r: Result<Part, BuildError>)
    requires
        element_end(tokens@, i as int) == Some(e as int),
    ensures
        r matches Ok(p) ==> measures_wf(p.measure@) && p.measure@.len()
            == crate::tokens::named_before(tokens@, i as int, e as int, "measure"@).len()
            && opt_view(Some(p.id)) == attr_at(tokens@, i as int, "id"@),
        r matches Ok(p) ==> forall|k: int| 0 <= k < p.measure@.len() ==> is_measure_of(
            #[trigger] p.measure@[k],
            tokens@,
            crate::tokens::named_before(tokens@, i as int, e as int, "measure"@)[k],
        ),
        r is Ok <==> part_valid(tokens@, i as int, e as int),
        match part_error(tokens@, i as int, e as int) {
            Some(x) => r == Err::<Part, BuildError>(x),
            None => r is Ok,
        },
        attr_at(tokens@, i as int, "id"@) is None ==> r == Err::<Part, BuildError>(
            BuildError::MissingField { element: i, field: Field::Id },
        ),
{
    let id = match attribute(&tokens[i], "id") {
        Some(x) => x,
        None => {
            return Err(BuildError::MissingField { element: i, field: Field::Id });
        },
    };
    let ms = children_of(tokens, i, e, Some("measure"));
    let mut measure: Vec<Measure> = Vec::new();
    let mut q: usize = 0;
    while q < ms.len()
        invariant
            q <= ms@.len(),
            holds_indices(ms@, crate::tokens::named_before(tokens@, i as int, e as int, "measure"@)),
            element_end(tokens@, i as int) == Some(e as int),
            measure@.len() == q,
            measures_wf(measure@),
            attr_at(tokens@, i as int, "id"@) is Some,
            forall|k: int| 0 <= k < q ==> measure_valid(
                tokens@,
                #[trigger] ms@[k] as int,
                element_end(tokens@, ms@[k] as int).unwrap(),
            ),
            forall|k: int| 0 <= k < measure@.len() ==> is_measure_of(
                #[trigger] measure@[k],
                tokens@,
                crate::tokens::named_before(tokens@, i as int, e as int, "measure"@)[k],
            ),
        decreases ms@.len() - q,
    {
        proof {
            lemma_named_before(tokens@, i as int, e as int, "measure"@, q as int);
            lemma_inner_closes(tokens@, i as int, e as int, ms@[q as int] as int);
        }
        let c = ms[q];
        match find_end(tokens, c) {
            Some(ce) => {
                let m = match build_measure(tokens, c, ce) {
                    Ok(m) => m,
                    Err(err) => {
                        proof {
                            let sp = crate::tokens::named_before(tokens@, i as int, e as int, "measure"@);
                            assert(sp[q as int] == c as int);
                            assert(!part_valid(tokens@, i as int, e as int));
                            let errs = measure_errors(tokens@, i as int, e as int);
                            assert forall|j: int| 0 <= j < q implies #[trigger] errs[j] is None by {
                                assert(sp[j] == ms@[j] as int);
                                lemma_measure_error_none(tokens@, sp[j], element_end(tokens@, sp[j]).unwrap());
                            }
                            lemma_first_error(errs, q as int);
                        }
                        return Err(err);
                    },
                };
                assert(is_measure_of(m, tokens@, c as int));
                let ghost before = measure@;
                measure.push(m);
                assert forall|k: int| 0 <= k < measure@.len() implies is_measure_of(
                    #[trigger] measure@[k],
                    tokens@,
                    crate::tokens::named_before(tokens@, i as int, e as int, "measure"@)[k],
                ) by {
                    if k < before.len() {
                        assert(measure@[k] == before[k]);
                    }
                }
                assert forall|k: int| 0 <= k < measure@.len() implies items_wf(
                    #[trigger] measure@[k].content@,
                ) by {
                    if k < before.len() {
                        assert(measure@[k] == before[k]);
                    }
                }
            },
            None => {
                return Err(BuildError::UnexpectedEndOfInput);
            },
        }
        q = q + 1;
    }
    proof {
        let sp = crate::tokens::named_before(tokens@, i as int, e as int, "measure"@);
        assert forall|k: int| 0 <= k < sp.len() implies measure_valid(
            tokens@,
            #[trigger] sp[k],
            element_end(tokens@, sp[k]).unwrap(),
        ) by {
            assert(sp[k] == ms@[k] as int);
        }
        let errs = measure_errors(tokens@, i as int, e as int);
        assert forall|j: int| 0 <= j < errs.len() implies #[trigger] errs[j] is None by {
            lemma_measure_error_none(tokens@, sp[j], element_end(tokens@, sp[j]).unwrap());
        }
        lemma_first_error(errs, errs.len() as int);
    }
    Ok(Part { id, measure })
}

/// Whether the supports element starting at `c` names its element and type.
pub open spec fn supports_valid(tokens: Seq<Token>, c: int) -> bool {
    attr_at(tokens, c, "element"@) is Some && attr_at(tokens, c, "type"@) is Some
}

/// Whether the identification element from `i` to `e` is valid: each
/// supports of its encoding complete.
pub open spec fn identification_valid(tokens: Seq<Token>, i: int, e: int) -> bool {
    last_named(tokens, i, e, "encoding"@) matches Some(c) ==> ({
        let ss = crate::tokens::named_before(tokens, c, element_end(tokens, c).unwrap(), "supports"@);
        forall|k: int| 0 <= k < ss.len() ==> supports_valid(tokens, #[trigger] ss[k])
    })
}

/// The error reading the supports element starting at `c`, if any.
pub open spec fn supports_error(tokens: Seq<Token>, c: int) -> Option<BuildError> {
    if attr_at(tokens, c, "element"@) is None {
        Some(BuildError::MissingField { element: c as usize, field: Field::Element })
    } else if attr_at(tokens, c, "type"@) is None {
        Some(BuildError::MissingField { element: c as usize, field: Field::Type })
    } else {
        None
    }
}

/// The errors of the supports children of the element starting at `c`.
pub open spec fn supports_errors(tokens: Seq<Token>, c: int) -> Seq<Option<BuildError>> {
    let ss = crate::tokens::named_before(tokens, c, element_end(tokens, c).unwrap(), "supports"@);
    Seq::new(ss.len(), |k: int| supports_error(tokens, ss[k]))
}

/// The error reading the identification element from `i` to `e` stops
/// with, if any: the first incomplete supports of its encoding.
pub open spec fn identification_error(tokens: Seq<Token>, i: int, e: int) -> Option<BuildError> {
    if last_named(tokens, i, e, "encoding"@) is None {
        None
    } else {
        first_error(supports_errors(tokens, last_named(tokens, i, e, "encoding"@).unwrap()))
    }
}

/// Reads the identification element from `i` to its end `e`.
pub fn build_identification(tokens: &Vec<Token>, i: usize, e: usize) -> (r: Result<
    Identification,
    BuildError,
>)
    requires
        element_end(tokens@, i as int) == Some(e as int),
    ensures
        r matches Ok(d) ==> d.creator@.len() == crate::tokens::named_before(
            tokens@,
            i as int,
            e as int,
            "creator"@,
        ).len() && (d.encoding is Some <==> last_named(tokens@, i as int, e as int, "encoding"@) is Some),
        r is Ok <==> identification_valid(tokens@, i as int, e as int),
        match identification_error(tokens@, i as int, e as int) {
            Some(x) => r == Err::<Identification, BuildError>(x),
            None => r is Ok,
        },
{
    let n = children_of(tokens, i, e, Some("creator")).len();
    let mut creator: Vec<Creator> = Vec::new();
    let mut q: usize = 0;
    while q < n
        invariant
            q <= n,
            creator@.len() == q,
        decreases n - q,
    {
        creator.push(Creator {  });
        q = q + 1;
    }
    let encoding = match child_span(tokens, i, e, "encoding") {
        Some((c, ce)) => {
            let ss = children_of(tokens, c, ce, Some("supports"));
            proof {
                crate::tokens::lemma_close_search(tokens@, c as int, c + 1, ce as int);
            }
            let mut supports: Vec<Supports> = Vec::new();
            let mut k: usize = 0;
            while k < ss.len()
                invariant
                    k <= ss@.len(),
                    holds_indices(ss@, crate::tokens::named_before(tokens@, c as int, ce as int, "supports"@)),
                    tokens@.len() > ce > c,
                    last_named(tokens@, i as int, e as int, "encoding"@) == Some(c as int),
                    element_end(tokens@, c as int) == Some(ce as int),
                    forall|x: int| 0 <= x < k ==> supports_valid(tokens@, #[trigger] ss@[x] as int),
                decreases ss@.len() - k,
            {
                proof {
                    lemma_named_before(tokens@, c as int, ce as int, "supports"@, k as int);
                }
                let t = &tokens[ss[k]];
                let element = match attribute(t, "element") {
                    Some(x) => x,
                    None => {
                        proof {
                            let sp = crate::tokens::named_before(tokens@, c as int, ce as int, "supports"@);
                            assert(sp[k as int] == ss@[k as int] as int);
                            assert(!supports_valid(tokens@, sp[k as int]));
                            assert(0 <= k < sp.len());
                            assert(element_end(tokens@, c as int).unwrap() == ce);
                            assert(!identification_valid(tokens@, i as int, e as int));
                            let errs = supports_errors(tokens@, c as int);
                            assert forall|j: int| 0 <= j < k implies #[trigger] errs[j] is None by {
                                assert(sp[j] == ss@[j] as int);
                                assert(supports_valid(tokens@, sp[j]));
                            }
                            lemma_first_error(errs, k as int);
                        }
                        return Err(BuildError::MissingField { element: ss[k], field: Field::Element });
                    },
                };
                let kind = match attribute(t, "type") {
                    Some(x) => x,
                    None => {
                        proof {
                            let sp = crate::tokens::named_before(tokens@, c as int, ce as int, "supports"@);
                            assert(sp[k as int] == ss@[k as int] as int);
                            assert(!supports_valid(tokens@, sp[k as int]));
                            assert(0 <= k < sp.len());
                            assert(element_end(tokens@, c as int).unwrap() == ce);
                            assert(!identification_valid(tokens@, i as int, e as int));
                            let errs = supports_errors(tokens@, c as int);
                            assert forall|j: int| 0 <= j < k implies #[trigger] errs[j] is None by {
                                assert(sp[j] == ss@[j] as int);
                                assert(supports_valid(tokens@, sp[j]));
                            }
                            lemma_first_error(errs, k as int);
                        }
                        return Err(BuildError::MissingField { element: ss[k], field: Field::Type });
                    },
                };
                supports.push(
                    Supports {
                        element,
                        kind,
                        attribute: attribute(t, "attribute"),
                        value: attribute(t, "value"),
                    },
                );
                k = k + 1;
            }
            proof {
                let sp = crate::tokens::named_before(tokens@, c as int, ce as int, "supports"@);
                let errs = supports_errors(tokens@, c as int);
                assert forall|j: int| 0 <= j < errs.len() implies #[trigger] errs[j] is None by {
                    assert(sp[j] == ss@[j] as int);
                    assert(supports_valid(tokens@, sp[j]));
                }
                lemma_first_error(errs, errs.len() as int);
            }
            Some(Encoding { supports })
        },
        None => None,
    };
    Ok(Identification { creator, encoding })
}


/// Index of the first start token at or after `j`.
pub open spec fn first_start(tokens: Seq<Token>, j: int) -> Option<int>
    decreases tokens.len() - j,
{
    if j < 0 || j >= tokens.len() {
        None
    } else if tokens[j] is Start {
        Some(j)
    } else {
        first_start(tokens, j + 1)
    }
}

/// Whether the tokens hold a valid partwise score: a closed
/// `score-partwise` root with its children in order, a part list, a valid
/// identification if any, and valid parts.
pub open spec fn score_valid(tokens: Seq<Token>) -> bool {
    let x = first_start(tokens, 0).unwrap();
    let e = element_end(tokens, x).unwrap();
    let ps = crate::tokens::named_before(tokens, x, e, "part"@);
    &&& first_start(tokens, 0) is Some
    &&& start_name(tokens[x]) == "score-partwise"@
    &&& element_end(tokens, x) is Some
    &&& in_order(tokens, x, e, Container::Score)
    &&& last_named(tokens, x, e, "part-list"@) is Some
    &&& last_named(tokens, x, e, "identification"@) matches Some(c) ==> identification_valid(
        tokens,
        c,
        element_end(tokens, c).unwrap(),
    )
    &&& forall|k: int| 0 <= k < ps.len() ==> part_valid(
        tokens,
        #[trigger] ps[k],
        element_end(tokens, ps[k]).unwrap(),
    )
}

/// A valid identification reads without error.
pub proof fn lemma_identification_error_none(tokens: Seq<Token>, i: int, e: int)
    requires
        identification_valid(tokens, i, e),
    ensures
        identification_error(tokens, i, e) is None,
{
    if last_named(tokens, i, e, "encoding"@) is Some {
        let c = last_named(tokens, i, e, "encoding"@).unwrap();
        let ss = crate::tokens::named_before(tokens, c, element_end(tokens, c).unwrap(), "supports"@);
        let errs = supports_errors(tokens, c);
        assert forall|j: int| 0 <= j < errs.len() implies #[trigger] errs[j] is None by {
            assert(supports_valid(tokens, ss[j]));
        }
        lemma_first_error(errs, errs.len() as int);
    }
}

/// The errors of the parts of the score element from `x` to `e`.
pub open spec fn part_errors(tokens: Seq<Token>, x: int, e: int) -> Seq<Option<BuildError>> {
    let ps = crate::tokens::named_before(tokens, x, e, "part"@);
    Seq::new(ps.len(), |k: int| part_error(tokens, ps[k], element_end(tokens, ps[k]).unwrap()))
}

/// The error reading the tokens as a score stops with, if any: no element,
/// a wrong or unclosed root, the first misplaced child, a missing part
/// list, the identification's error, then the first part's error.
pub open spec fn score_error(tokens: Seq<Token>) -> Option<BuildError> {
    let x = first_start(tokens, 0).unwrap();
    let e = element_end(tokens, x).unwrap();
    let d = last_named(tokens, x, e, "identification"@).unwrap();
    if first_start(tokens, 0) is None {
        Some(BuildError::UnexpectedEndOfInput)
    } else if start_name(tokens[x]) != "score-partwise"@ {
        Some(BuildError::UnexpectedRoot)
    } else if element_end(tokens, x) is None {
        Some(BuildError::UnexpectedEndOfInput)
    } else if !in_order(tokens, x, e, Container::Score) {
        Some(
            BuildError::OutOfOrderField {
                element: misplaced_child(tokens, x, e, Container::Score) as usize,
            },
        )
    } else if last_named(tokens, x, e, "part-list"@) is None {
        Some(BuildError::MissingField { element: x as usize, field: Field::PartList })
    } else if last_named(tokens, x, e, "identification"@) is Some && identification_error(
        tokens,
        d,
        element_end(tokens, d).unwrap(),
    ) is Some {
        identification_error(tokens, d, element_end(tokens, d).unwrap())
    } else {
        first_error(part_errors(tokens, x, e))
    }
}

/// Reads the tokens of a whole document as a partwise score: its root is
/// the first element, which must be `score-partwise`, with its children in
/// their declared order and a part list.
pub fn build_score(tokens: &Vec<Token>) -> (r: Result<ScorePartwise, BuildError>)
    ensures
        r is Ok <==> score_valid(tokens@),
        match score_error(tokens@) {
            Some(x) => r == Err::<ScorePartwise, BuildError>(x),
            None => r is Ok,
        },
        first_start(tokens@, 0) is None ==> r == Err::<ScorePartwise, BuildError>(
            BuildError::UnexpectedEndOfInput,
        ),
        first_start(tokens@, 0) matches Some(x) && start_name(tokens@[x]) != "score-partwise"@
            ==> r == Err::<ScorePartwise, BuildError>(BuildError::UnexpectedRoot),
        first_start(tokens@, 0) matches Some(x) && start_name(tokens@[x]) == "score-partwise"@
            && element_end(tokens@, x) is None ==> r == Err::<ScorePartwise, BuildError>(
            BuildError::UnexpectedEndOfInput,
        ),
        ({
            let x = first_start(tokens@, 0).unwrap();
            let e = element_end(tokens@, x).unwrap();
            first_start(tokens@, 0) is Some && start_name(tokens@[x]) == "score-partwise"@
                && element_end(tokens@, x) is Some && !in_order(tokens@, x, e, Container::Score)
                ==> r == Err::<ScorePartwise, BuildError>(
                BuildError::OutOfOrderField {
                    element: misplaced_child(tokens@, x, e, Container::Score) as usize,
                },
            )
        }),
        ({
            let x = first_start(tokens@, 0).unwrap();
            let e = element_end(tokens@, x).unwrap();
            first_start(tokens@, 0) is Some && start_name(tokens@[x]) == "score-partwise"@
                && element_end(tokens@, x) is Some && in_order(tokens@, x, e, Container::Score)
                && last_named(tokens@, x, e, "part-list"@) is None ==> r == Err::<
                ScorePartwise,
                BuildError,
            >(BuildError::MissingField { element: x as usize, field: Field::PartList })
        }),
        ({
            let x = first_start(tokens@, 0).unwrap();
            let e = element_end(tokens@, x).unwrap();
            r matches Ok(sc) ==> first_start(tokens@, 0) is Some && element_end(tokens@, x) is Some
                && sc.part@.len() == crate::tokens::named_before(tokens@, x, e, "part"@).len()
        }),
        ({
            let x = first_start(tokens@, 0).unwrap();
            let ps = crate::tokens::named_before(
                tokens@,
                x,
                element_end(tokens@, x).unwrap(),
                "part"@,
            );
            r matches Ok(sc) ==> forall|k: int| 0 <= k < sc.part@.len() ==> is_part_of(
                #[trigger] sc.part@[k],
                tokens@,
                ps[k],
            )
        }),
        r matches Ok(sc) ==> forall|k: int| 0 <= k < sc.part@.len() ==> measures_wf(
            #[trigger] sc.part@[k].measure@,
        ),
{
    let n = tokens.len();
    let mut x: usize = 0;
    while x < n && !crate::tokens::is_start(&tokens[x])
        invariant
            x <= n == tokens@.len(),
            first_start(tokens@, 0) == first_start(tokens@, x as int),
        decreases n - x,
    {
        x = x + 1;
    }
    if x == n {
        return Err(BuildError::UnexpectedEndOfInput);
    }
    if !starts(&tokens[x], "score-partwise") {
        return Err(BuildError::UnexpectedRoot);
    }
    let e = match find_end(tokens, x) {
        Some(e) => e,
        None => {
            return Err(BuildError::UnexpectedEndOfInput);
        },
    };
    check_children_order(tokens, x, e, Container::Score)?;
    if child_span(tokens, x, e, "part-list").is_none() {
        return Err(BuildError::MissingField { element: x, field: Field::PartList });
    }
    let version = attribute(&tokens[x], "version");
    let identification = match child_span(tokens, x, e, "identification") {
        Some((c, ce)) => match build_identification(tokens, c, ce) {
            Ok(d) => Some(d),
            Err(err) => {
                return Err(err);
            },
        },
        None => None,
    };
    let ps = children_of(tokens, x, e, Some("part"));
    let mut part: Vec<Part> = Vec::new();
    let mut q: usize = 0;
    while q < ps.len()
        invariant
            q <= ps@.len(),
            holds_indices(ps@, crate::tokens::named_before(tokens@, x as int, e as int, "part"@)),
            element_end(tokens@, x as int) == Some(e as int),
            x < tokens@.len(),
            first_start(tokens@, 0) == Some(x as int),
            start_name(tokens@[x as int]) == "score-partwise"@,
            in_order(tokens@, x as int, e as int, Container::Score),
            last_named(tokens@, x as int, e as int, "part-list"@) is Some,
            last_named(tokens@, x as int, e as int, "identification"@) matches Some(c)
                ==> identification_valid(tokens@, c, element_end(tokens@, c).unwrap()),
            forall|k: int| 0 <= k < q ==> part_valid(
                tokens@,
                #[trigger] ps@[k] as int,
                element_end(tokens@, ps@[k] as int).unwrap(),
            ),
            forall|k: int| 0 <= k < part@.len() ==> is_part_of(
                #[trigger] part@[k],
                tokens@,
                crate::tokens::named_before(tokens@, x as int, e as int, "part"@)[k],
            ),
            part@.len() == q,
            forall|k: int| 0 <= k < part@.len() ==> measures_wf(#[trigger] part@[k].measure@),
        decreases ps@.len() - q,
    {
        proof {
            lemma_named_before(tokens@, x as int, e as int, "part"@, q as int);
            lemma_inner_closes(tokens@, x as int, e as int, ps@[q as int] as int);
        }
        let c = ps[q];
        match find_end(tokens, c) {
            Some(ce) => {
                let p = match build_part(tokens, c, ce) {
                    Ok(p) => p,
                    Err(err) => {
                        proof {
                            let sp = crate::tokens::named_before(tokens@, x as int, e as int, "part"@);
                            assert(sp[q as int] == c as int);
                            assert(!score_valid(tokens@));
                            let errs = part_errors(tokens@, x as int, e as int);
                            assert forall|j: int| 0 <= j < q implies #[trigger] errs[j] is None by {
                                assert(sp[j] == ps@[j] as int);
                                lemma_part_error_none(tokens@, sp[j], element_end(tokens@, sp[j]).unwrap());
                            }
                            lemma_first_error(errs, q as int);
                            if last_named(tokens@, x as int, e as int, "identification"@) is Some {
                                let d = last_named(tokens@, x as int, e as int, "identification"@).unwrap();
                                lemma_identification_error_none(tokens@, d, element_end(tokens@, d).unwrap());
                            }
                        }
                        return Err(err);
                    },
                };
                assert(is_part_of(p, tokens@, c as int));
                let ghost before = part@;
                part.push(p);
                assert forall|k: int| 0 <= k < part@.len() implies is_part_of(
                    #[trigger] part@[k],
                    tokens@,
                    crate::tokens::named_before(tokens@, x as int, e as int, "part"@)[k],
                ) by {
                    if k < before.len() {
                        assert(part@[k] == before[k]);
                    }
                }
                assert forall|k: int| 0 <= k < part@.len() implies measures_wf(
                    #[trigger] part@[k].measure@,
                ) by {
                    if k < before.len() {
                        assert(part@[k] == before[k]);
                    }
                }
            },
            None => {
                return Err(BuildError::UnexpectedEndOfInput);
            },
        }
        q = q + 1;
    }
    proof {
        let sp = crate::tokens::named_before(tokens@, x as int, e as int, "part"@);
        assert forall|k: int| 0 <= k < sp.len() implies part_valid(
            tokens@,
            #[trigger] sp[k],
            element_end(tokens@, sp[k]).unwrap(),
        ) by {
            assert(sp[k] == ps@[k] as int);
        }
        let errs = part_errors(tokens@, x as int, e as int);
        assert forall|j: int| 0 <= j < errs.len() implies #[trigger] errs[j] is None by {
            lemma_part_error_none(tokens@, sp[j], element_end(tokens@, sp[j]).unwrap());
        }
        lemma_first_error(errs, errs.len() as int);
        if last_named(tokens@, x as int, e as int, "identification"@) is Some {
            let d = last_named(tokens@, x as int, e as int, "identification"@).unwrap();
            lemma_identification_error_none(tokens@, d, element_end(tokens@, d).unwrap());
        }
    }
    Ok(ScorePartwise { version, identification, part_list: PartList {  }, part })
}

} // verus!
