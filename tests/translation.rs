use sublate::{Data, Subtitle, Subtitles, Translation, TranslationError, TranslationResponse};

fn response(texts: &[&str]) -> TranslationResponse {
    TranslationResponse {
        data: Data {
            translations: texts
                .iter()
                .map(|t| Translation {
                    translated_text: t.to_string(),
                })
                .collect(),
        },
    }
}

fn cue(counter: u32, timestamp: &str, lines: &[&str]) -> Subtitle {
    Subtitle {
        counter,
        timestamp: timestamp.to_string(),
        lines: lines.iter().map(|l| l.to_string()).collect(),
    }
}

#[test]
fn from_single_span() {
    let subtitle = Subtitle::from_html(
        1,
        "whatever".into(),
        "<span>We buy a used one!</span>",
    );

    assert_eq!(&["We buy a used one!"], &subtitle.lines[..]);
}

#[test]
fn from_two_spans() {
    let subtitle = Subtitle::from_html(
        1,
        "whatever".into(),
        "<span>Yes, ok.</span> <span>What should we be called, then?</span>",
    );

    assert_eq!(
        &["Yes, ok.", "What should we be called, then?"],
        &subtitle.lines[..]
    );
}

#[test]
fn from_html_keeps_counter_and_timestamp() {
    let subtitle = Subtitle::from_html(7, "00:01 --> 00:02".into(), "<span>x</span>");

    assert_eq!(7, subtitle.counter);
    assert_eq!("00:01 --> 00:02", subtitle.timestamp);
}

#[test]
fn from_html_scan_is_not_greedy() {
    let subtitle = Subtitle::from_html(1, "t".into(), "<span>a</span>b</span>");

    assert_eq!(&["a"], &subtitle.lines[..]);
}

#[test]
fn from_html_needs_text_in_a_span() {
    let subtitle = Subtitle::from_html(1, "t".into(), "<span></span>x</span>");

    assert_eq!(&["</span>x"], &subtitle.lines[..]);
}

#[test]
fn from_html_stops_span_at_newline() {
    let subtitle = Subtitle::from_html(1, "t".into(), "<span>a\nb</span><span>c</span>");

    assert_eq!(&["c"], &subtitle.lines[..]);
}

#[test]
fn from_html_without_spans() {
    let subtitle = Subtitle::from_html(1, "t".into(), "plain text");

    assert_eq!(0, subtitle.lines.len());
}

#[test]
fn to_html_wraps_each_line() {
    let c = cue(1, "t", &["Hello.", "World."]);

    assert_eq!("<span>Hello.</span><span>World.</span>", c.to_html());
}

#[test]
fn translatable_texts_one_per_cue() {
    let track = Subtitles(vec![cue(1, "a", &["x"]), cue(2, "b", &["y", "z"])]);

    assert_eq!(
        vec![
            "<span>x</span>".to_string(),
            "<span>y</span><span>z</span>".to_string()
        ],
        track.to_translatable_texts()
    );
}

#[test]
fn echoed_batch_decodes_to_itself() {
    let track = Subtitles(vec![
        cue(1, "00:00:01,000 --> 00:00:02,000", &["a < b", "<i>x</i>"]),
        cue(2, "00:00:03,000 --> 00:00:04,000", &["Jåttå-vågen", "<span>nested"]),
    ]);
    let texts = track.to_translatable_texts();
    let echoed: Vec<&str> = texts.iter().map(|t| t.as_str()).collect();

    let decoded = Subtitles::from(response(&echoed), &track).unwrap();

    assert_eq!(track.0, decoded.0);
}

#[test]
fn escaped_response_is_unescaped() {
    let original = Subtitles(vec![cue(3, "00:00:05,000 --> 00:00:06,000", &["Cafe"])]);

    let translated =
        Subtitles::from(response(&["<span>Caf&eacute;</span>"]), &original).unwrap();

    assert_eq!(1, translated.0.len());
    assert_eq!(&["Café"], &translated.0[0].lines[..]);
    assert_eq!(3, translated.0[0].counter);
    assert_eq!("00:00:05,000 --> 00:00:06,000", translated.0[0].timestamp);
}

#[test]
fn escaped_markup_is_unescaped_before_the_scan() {
    let original = Subtitles(vec![cue(1, "t", &["x"])]);

    let translated =
        Subtitles::from(response(&["&lt;span&gt;Tom &amp; Jerry&lt;/span&gt;"]), &original)
            .unwrap();

    assert_eq!(&["Tom & Jerry"], &translated.0[0].lines[..]);
}

#[test]
fn decode_unescapes_entities() {
    let t = Translation {
        translated_text: "Caf&eacute; &#65;&#x42;".to_string(),
    };

    assert_eq!("Café AB", t.decode());
}

#[test]
fn too_few_translations_is_an_error() {
    let original = Subtitles(vec![cue(1, "a", &["x"]), cue(2, "b", &["y"])]);

    let result = Subtitles::from(response(&["<span>x</span>"]), &original);

    assert_eq!(
        Some(TranslationError::CountMismatch {
            requested: 2,
            received: 1
        }),
        result.err()
    );
}

#[test]
fn too_many_translations_is_an_error() {
    let original = Subtitles(vec![cue(1, "a", &["x"])]);
    let texts = vec!["<span>x</span>".to_string(), "<span>y</span>".to_string()];

    let result = Subtitles::from_texts(&texts, &original);

    assert_eq!(
        Some(TranslationError::CountMismatch {
            requested: 1,
            received: 2
        }),
        result.err()
    );
}

#[test]
fn from_texts_pairs_by_position() {
    let original = Subtitles(vec![cue(4, "a", &["x"]), cue(9, "b", &["y"])]);
    let texts = vec![
        "<span>X1</span><span>X2</span>".to_string(),
        "<span>Y</span>".to_string(),
    ];

    let translated = Subtitles::from_texts(&texts, &original).unwrap();

    assert_eq!(
        vec![cue(4, "a", &["X1", "X2"]), cue(9, "b", &["Y"])],
        translated.0
    );
}
