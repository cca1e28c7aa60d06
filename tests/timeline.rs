use musicxml_midi::builder::{BuildError, Field};
use musicxml_midi::tokens::{Token, XmlAttribute};
use musicxml_midi::{convert, parse, tokenize, ConvertError, EventKind, ScheduleError, TrackEvent};

fn on(delta: u64, key: u8) -> TrackEvent {
    TrackEvent { delta, kind: EventKind::NoteOn { channel: 0, key, velocity: 127 } }
}

fn off(delta: u64, key: u8) -> TrackEvent {
    TrackEvent { delta, kind: EventKind::NoteOff { channel: 0, key, velocity: 0 } }
}

fn note(step: &str, octave: u8, extra: &str) -> String {
    format!(
        "<note>{extra}<pitch><step>{step}</step><octave>{octave}</octave></pitch><duration>1</duration></note>"
    )
}

fn score(measures: &[String]) -> String {
    let mut body = String::new();
    for (k, m) in measures.iter().enumerate() {
        body.push_str(&format!("<measure number=\"{}\">{}</measure>", k + 1, m));
    }
    format!(
        "<score-partwise version=\"4.0\"><part-list><score-part id=\"piano\"><part-name>Piano</part-name></score-part></part-list><part id=\"piano\">{body}</part></score-partwise>"
    )
}

const DIVISIONS: &str = "<attributes><divisions>1</divisions><key><fifths>0</fifths></key><time><beats>4</beats><beat-type>4</beat-type></time><clef><sign>G</sign><line>2</line></clef></attributes>";

#[test]
fn test_name() {
    let src = r#"
        <score-partwise version="4.0">
          <part-list>
            <score-part id="P1">
              <part-name>Piano</part-name>
            </score-part>
          </part-list>
          <part id="P1">
            <measure number="1">
              <attributes>
                <divisions>1</divisions>
                <key>
                  <fifths>0</fifths>
                </key>
                <time>
                  <beats>4</beats>
                  <beat-type>4</beat-type>
                </time>
                <clef>
                  <sign>G</sign>
                  <line>2</line>
                </clef>
              </attributes>
              <note>
                <pitch>
                  <step>G</step>
                  <octave>4</octave>
                </pitch>
                <duration>1</duration>
              </note>
              <note>
                <pitch>
                  <step>A</step>
                  <octave>4</octave>
                </pitch>
                <duration>1</duration>
              </note>
              <note>
                <chord />
                <pitch>
                  <step>D</step>
                  <octave>5</octave>
                </pitch>
                <duration>1</duration>
              </note>
              <note>
                <chord />
                <pitch>
                  <step>F</step>
                  <octave>5</octave>
                </pitch>
                <duration>1</duration>
              </note>
              <note>
                <pitch>
                  <step>G</step>
                  <octave>4</octave>
                </pitch>
                <duration>1</duration>
              </note>
              <note>
                <rest />
                <duration>1</duration>
              </note>
            </measure>
          </part>
        </score-partwise>
    "#;
    let track = parse(src).unwrap();
    assert_eq!(
        track.events,
        vec![
            on(0, 67),
            off(480, 67),
            on(0, 69),
            on(0, 74),
            on(0, 77),
            off(480, 69),
            off(0, 74),
            off(0, 77),
            on(0, 67),
            off(480, 67),
        ]
    );
    assert_eq!(track.end_position, 1920);
}

#[test]
fn chord_group_end_to_end() {
    let m = format!(
        "{DIVISIONS}{}{}{}{}{}<note><rest/><duration>1</duration></note>",
        note("G", 4, ""),
        note("A", 4, ""),
        note("G", 4, ""),
        note("D", 5, "<chord/>"),
        note("F", 5, "<chord/>"),
    );
    let track = parse(&score(&[m])).unwrap();
    assert_eq!(
        track.events,
        vec![
            on(0, 67),
            off(480, 67),
            on(0, 69),
            off(480, 69),
            on(0, 67),
            on(0, 74),
            on(0, 77),
            off(480, 67),
            off(0, 74),
            off(0, 77),
        ]
    );
    assert_eq!(track.end_position, 1920);
}

#[test]
fn lone_note_gets_one_onset_and_one_release() {
    let m = format!("<attributes><divisions>2</divisions></attributes>{}", note("C", 4, ""));
    let track = parse(&score(&[m])).unwrap();
    assert_eq!(track.events, vec![on(0, 60), off(240, 60)]);
    assert_eq!(track.end_position, 240);
}

#[test]
fn deltas_add_up_to_the_last_release() {
    let m = format!("{DIVISIONS}{}{}{}", note("C", 4, ""), note("E", 4, ""), note("G", 4, ""));
    let track = parse(&score(&[m])).unwrap();
    let sum: u64 = track.events.iter().map(|e| e.delta).sum();
    assert_eq!(sum, track.end_position);
    assert_eq!(sum, 1440);
}

#[test]
fn backup_past_the_start_clamps_to_zero() {
    let m = format!(
        "{DIVISIONS}{}<backup><duration>5</duration></backup>{}",
        note("C", 4, ""),
        note("E", 4, ""),
    );
    let track = parse(&score(&[m])).unwrap();
    assert_eq!(track.events, vec![on(0, 60), on(0, 64), off(480, 60), off(0, 64)]);
    assert_eq!(track.end_position, 480);
}

#[test]
fn backup_rewinds_for_a_second_voice() {
    let m = format!(
        "{DIVISIONS}{}{}<backup><duration>1</duration></backup>{}",
        note("C", 4, ""),
        note("D", 4, ""),
        note("G", 3, ""),
    );
    let track = parse(&score(&[m])).unwrap();
    assert_eq!(
        track.events,
        vec![on(0, 60), off(480, 60), on(0, 62), on(0, 55), off(480, 62), off(0, 55)]
    );
}

#[test]
fn tie_across_a_barline_sounds_once() {
    let m1 = format!("{DIVISIONS}{}", note("G", 4, "<tie type=\"start\"/>"));
    let m2 = note("G", 4, "<tie type=\"stop\"/>");
    let track = parse(&score(&[m1, m2])).unwrap();
    assert_eq!(track.events, vec![on(0, 67), off(960, 67)]);
    assert_eq!(track.end_position, 960);
}

#[test]
fn grace_and_cue_notes_are_skipped() {
    let m = format!(
        "{DIVISIONS}<note><grace/><pitch><step>D</step><octave>4</octave></pitch></note><note><cue/><pitch><step>E</step><octave>4</octave></pitch><duration>1</duration></note>{}",
        note("C", 4, ""),
    );
    let track = parse(&score(&[m])).unwrap();
    assert_eq!(track.events, vec![on(0, 60), off(480, 60)]);
}

#[test]
fn tempo_direction_emits_a_tempo_change() {
    let m = format!(
        "{DIVISIONS}<direction><sound tempo=\"120\"/></direction>{}<direction><sound/></direction><direction><sound tempo=\"0\"/></direction>",
        note("C", 4, ""),
    );
    let track = parse(&score(&[m])).unwrap();
    assert_eq!(
        track.events,
        vec![
            TrackEvent { delta: 0, kind: EventKind::TempoChange { micros_per_quarter: 500_000 } },
            on(0, 60),
            off(480, 60),
        ]
    );
}

#[test]
fn alteration_raises_the_key() {
    let m = format!(
        "{DIVISIONS}<note><pitch><step>F</step><alter>1</alter><octave>4</octave></pitch><duration>1</duration></note><note><pitch><step>B</step><alter>-1</alter><octave>3</octave></pitch><duration>1</duration></note>"
    );
    let track = parse(&score(&[m])).unwrap();
    assert_eq!(track.events, vec![on(0, 66), off(480, 66), on(0, 58), off(480, 58)]);
}

#[test]
fn divisions_rescale_durations() {
    let m = format!(
        "<attributes><divisions>4</divisions></attributes><note><rest/><duration>2</duration></note><note><pitch><step>C</step><octave>4</octave></pitch><duration>6</duration></note>"
    );
    let track = parse(&score(&[m])).unwrap();
    assert_eq!(track.events, vec![on(240, 60), off(720, 60)]);
    assert_eq!(track.end_position, 960);
}

#[test]
fn key_out_of_range_fails() {
    let m = format!("{DIVISIONS}{}", note("B", 9, ""));
    assert_eq!(
        parse(&score(&[m])).err(),
        Some(ConvertError::Schedule(ScheduleError::KeyOutOfRange))
    );
}

#[test]
fn missing_duration_fails() {
    let m = "<note><pitch><step>C</step><octave>4</octave></pitch></note>".to_string();
    assert!(matches!(
        parse(&score(&[m])),
        Err(ConvertError::Build(BuildError::MissingField { field: Field::Duration, .. }))
    ));
}

#[test]
fn invalid_step_fails() {
    let m = "<note><pitch><step>H</step><octave>4</octave></pitch><duration>1</duration></note>".to_string();
    assert!(matches!(
        parse(&score(&[m])),
        Err(ConvertError::Build(BuildError::InvalidField { field: Field::Step, .. }))
    ));
}

#[test]
fn missing_part_list_fails() {
    let src = r#"<score-partwise><part id="piano"/></score-partwise>"#;
    assert_eq!(
        parse(src).err(),
        Some(ConvertError::Build(BuildError::MissingField { element: 0, field: Field::PartList }))
    );
}

#[test]
fn unexpected_root_fails() {
    assert_eq!(
        parse("<score-timewise><part-list/></score-timewise>").err(),
        Some(ConvertError::Build(BuildError::UnexpectedRoot))
    );
}

#[test]
fn empty_input_fails() {
    assert_eq!(convert(&vec![]).err(), Some(ConvertError::Build(BuildError::UnexpectedEndOfInput)));
}

#[test]
fn unclosed_root_fails() {
    let tokens = vec![
        Token::Start { name: "score-partwise".to_string(), attributes: vec![] },
        Token::Start { name: "part-list".to_string(), attributes: vec![] },
        Token::End,
    ];
    assert_eq!(convert(&tokens).err(), Some(ConvertError::Build(BuildError::UnexpectedEndOfInput)));
}

#[test]
fn two_parts_are_refused() {
    let src = r#"<score-partwise><part-list/><part id="piano"/><part id="violin"/></score-partwise>"#;
    assert_eq!(parse(src).err(), Some(ConvertError::PartCount(2)));
}

#[test]
fn malformed_markup_fails() {
    assert_eq!(parse("<a></b>").err(), Some(ConvertError::Syntax));
}

#[test]
fn markup_is_split_into_tokens() {
    let tokens = tokenize(r#"<a x="1"><b/>hi</a>"#).unwrap();
    assert_eq!(tokens.len(), 5);
    match &tokens[0] {
        Token::Start { name, attributes } => {
            assert_eq!(name, "a");
            assert_eq!(attributes.len(), 1);
            let XmlAttribute { name, value } = &attributes[0];
            assert_eq!(name, "x");
            assert_eq!(value, "1");
        }
        _ => panic!("expected a start token"),
    }
    assert!(matches!(&tokens[1], Token::Start { name, .. } if name == "b"));
    assert!(matches!(&tokens[2], Token::End));
    assert!(matches!(&tokens[3], Token::Text { text } if text == "hi"));
    assert!(matches!(&tokens[4], Token::End));
}

#[test]
fn references_and_cdata_are_resolved() {
    let m = format!(
        "{DIVISIONS}<direction><sound tempo=\"1&#50;0\"/></direction><note><pitch><step>&#71;</step><octave>4</octave></pitch><duration><![CDATA[1]]></duration></note>"
    );
    let track = parse(&score(&[m])).unwrap();
    assert_eq!(
        track.events,
        vec![
            TrackEvent { delta: 0, kind: EventKind::TempoChange { micros_per_quarter: 500_000 } },
            on(0, 67),
            off(480, 67),
        ]
    );
}

#[test]
fn unknown_entity_fails() {
    assert_eq!(parse("<a>&nope;</a>").err(), Some(ConvertError::Syntax));
}

#[test]
fn missing_duration_names_the_note() {
    let src = r#"<score-partwise><part-list/><part id="piano"><measure number="1"><note><pitch><step>C</step><octave>4</octave></pitch></note></measure></part></score-partwise>"#;
    assert_eq!(
        parse(src).err(),
        Some(ConvertError::Build(BuildError::MissingField { element: 5, field: Field::Duration }))
    );
}

#[test]
fn missing_octave_names_the_pitch() {
    let src = r#"<score-partwise><part-list/><part id="piano"><measure number="1"><note><pitch><step>C</step></pitch><duration>1</duration></note></measure></part></score-partwise>"#;
    assert_eq!(
        parse(src).err(),
        Some(ConvertError::Build(BuildError::MissingField { element: 6, field: Field::Octave }))
    );
}

#[test]
fn first_error_in_document_order_is_reported() {
    let src = r#"<score-partwise><part-list/><part id="piano"><measure number="1"><note><pitch><step>C</step><octave>4</octave></pitch></note></measure><measure/></part></score-partwise>"#;
    assert_eq!(
        parse(src).err(),
        Some(ConvertError::Build(BuildError::MissingField { element: 5, field: Field::Duration }))
    );
}
