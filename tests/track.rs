use sublate::{
    combined_suffix, lines_of, subtitle_codec, subtitle_file_name, subtitles, Subtitle,
    Subtitles, BATCH_SIZE,
};

fn cue(counter: u32, timestamp: &str, lines: &[&str]) -> Subtitle {
    Subtitle {
        counter,
        timestamp: timestamp.to_string(),
        lines: lines.iter().map(|l| l.to_string()).collect(),
    }
}

fn owned(lines: &[&str]) -> Vec<String> {
    lines.iter().map(|l| l.to_string()).collect()
}

fn parse_text(text: &str) -> Vec<Subtitle> {
    subtitles(lines_of(text)).collect()
}

#[test]
fn scenario_one_cue_with_trailing_blank() {
    let lines = owned(&["1", "00:00:14,600 --> 00:00:20,000", "Hello.", "World.", ""]);

    let cues = subtitles(lines).collect();

    assert_eq!(
        vec![cue(1, "00:00:14,600 --> 00:00:20,000", &["Hello.", "World."])],
        cues
    );
}

#[test]
fn scenario_two_cues_in_order() {
    let lines = owned(&["5", "a", "first", "", "6", "b", "second"]);

    let cues = subtitles(lines).collect();

    assert_eq!(vec![cue(5, "a", &["first"]), cue(6, "b", &["second"])], cues);
}

#[test]
fn first_line_not_a_number_gives_no_cues() {
    let lines = owned(&["WEBVTT", "1", "a", "x"]);

    assert_eq!(0, subtitles(lines).collect().len());
}

#[test]
fn parsing_stops_at_a_bad_counter() {
    let lines = owned(&["1", "a", "x", "", "two", "b", "y", "", "3", "c", "z"]);

    assert_eq!(vec![cue(1, "a", &["x"])], subtitles(lines).collect());
}

#[test]
fn counter_without_time_range_gives_no_cue() {
    assert_eq!(0, subtitles(owned(&["1"])).collect().len());
}

#[test]
fn cue_without_text_lines() {
    let lines = owned(&["1", "a", "", "2", "b", "y"]);

    assert_eq!(
        vec![cue(1, "a", &[]), cue(2, "b", &["y"])],
        subtitles(lines).collect()
    );
}

#[test]
fn counter_accepts_plus_and_leading_zeros() {
    let lines = owned(&["+007", "a", "x", "", "4294967295", "b", "y"]);

    assert_eq!(
        vec![cue(7, "a", &["x"]), cue(4294967295, "b", &["y"])],
        subtitles(lines).collect()
    );
}

#[test]
fn counter_out_of_range_ends_the_track() {
    assert_eq!(0, subtitles(owned(&["4294967296", "a", "x"])).collect().len());
    assert_eq!(0, subtitles(owned(&["-1", "a", "x"])).collect().len());
    assert_eq!(0, subtitles(owned(&["+", "a", "x"])).collect().len());
    assert_eq!(0, subtitles(owned(&[" 1", "a", "x"])).collect().len());
}

#[test]
fn iterator_reads_one_cue_at_a_time_and_stays_ended() {
    let mut iter = subtitles(owned(&["1", "a", "x", "", "oops", "2", "b", "y"]));

    assert_eq!(Some(cue(1, "a", &["x"])), iter.next());
    assert_eq!(None, iter.next());
    assert_eq!(None, iter.next());
}

#[test]
fn batches_are_consecutive_windows() {
    let mut lines = Vec::new();
    for n in 1..=5u32 {
        lines.push(n.to_string());
        lines.push("t".to_string());
        lines.push(format!("line {}", n));
        lines.push(String::new());
    }
    let mut iter = subtitles(lines);

    let first = iter.next_batch(2);
    let second = iter.next_batch(2);
    let third = iter.next_batch(2);
    let fourth = iter.next_batch(2);

    assert_eq!(vec![1, 2], first.0.iter().map(|c| c.counter).collect::<Vec<_>>());
    assert_eq!(vec![3, 4], second.0.iter().map(|c| c.counter).collect::<Vec<_>>());
    assert_eq!(vec![5], third.0.iter().map(|c| c.counter).collect::<Vec<_>>());
    assert_eq!(0, fourth.0.len());
}

#[test]
fn batch_size_is_bounded() {
    assert_eq!(128, BATCH_SIZE);
}

#[test]
fn render_cue_exactly() {
    let c = cue(12, "00:00:01,000 --> 00:00:02,000", &["Hello.", "World."]);

    assert_eq!("12\n00:00:01,000 --> 00:00:02,000\nHello.\nWorld.\n", c.to_string());
}

#[test]
fn render_cue_counter_zero() {
    assert_eq!("0\nt\nx\n", cue(0, "t", &["x"]).to_string());
}

#[test]
fn render_track_separates_cues_by_one_blank_line() {
    let track = Subtitles(vec![cue(1, "a", &["x"]), cue(2, "b", &["y", "z"])]);

    assert_eq!("1\na\nx\n\n2\nb\ny\nz\n", track.to_string());
}

#[test]
fn render_empty_track() {
    assert_eq!("", Subtitles(vec![]).to_string());
}

#[test]
fn track_round_trip() {
    let track = vec![
        cue(
            1,
            "00:00:14,600 --> 00:00:20,000",
            &["Hvis vi jobber rundt ...", "Her er vannet dypere."],
        ),
        cue(
            2,
            "00:00:21,280 --> 00:00:26,960",
            &["Hvis vi ser på alternativ 1 først, Jåttå-"],
        ),
        cue(4294967295, "x", &["<span>", "a < b"]),
    ];
    let text = Subtitles(track.clone()).to_string();

    assert_eq!(track, parse_text(&text));
}

#[test]
fn single_line_unicode_cue_round_trip() {
    let c = cue(3, "00:00:01,000 --> 00:00:02,000", &["日本語のテキスト — ünïcødé 🎬"]);
    let text = c.to_string();

    assert_eq!(vec![c], parse_text(&text));
}

#[test]
fn merge_is_positional_and_keeps_first_cue_identity() {
    let a = cue(1, "00:00:01,000 --> 00:00:02,000", &["A", "B"]);
    let b = cue(9, "00:09:00,000 --> 00:09:01,000", &["X", "Y"]);

    assert_eq!(cue(1, "00:00:01,000 --> 00:00:02,000", &["A", "B", "X", "Y"]), a + b);
}

#[test]
fn merge_with_empty_lines_cues() {
    assert_eq!(cue(1, "a", &[]), cue(1, "a", &[]) + cue(2, "b", &[]));
}

#[test]
fn merge_tracks_pairs_by_position() {
    let a = Subtitles(vec![cue(1, "a", &["x"]), cue(2, "b", &["y"])]);
    let b = Subtitles(vec![cue(7, "q", &["X"]), cue(8, "r", &[])]);

    assert_eq!(vec![cue(1, "a", &["x", "X"]), cue(2, "b", &["y"])], (a + b).0);
}

#[test]
fn render_cue_without_lines() {
    assert_eq!("1\na\n", cue(1, "a", &[]).to_string());
}

#[test]
fn track_with_empty_cue_round_trip() {
    let track = vec![
        cue(1, "a", &[]),
        cue(2, "b", &["y"]),
        cue(3, "c", &[]),
        cue(4, "d", &["z", "w"]),
        cue(5, "e", &[]),
    ];
    let text = Subtitles(track.clone()).to_string();

    assert_eq!("1\na\n\n2\nb\ny\n\n3\nc\n\n4\nd\nz\nw\n\n5\ne\n", text);
    assert_eq!(track, parse_text(&text));
}

#[test]
fn parsed_empty_cue_renders_back() {
    let cues = subtitles(owned(&["1", "a", "", "2", "b", "y"])).collect();
    let text = Subtitles(cues.clone()).to_string();

    assert_eq!(cues, parse_text(&text));
}

#[test]
fn subtitle_codec_by_container() {
    assert_eq!("srt", subtitle_codec("mkv"));
    assert_eq!("mov_text", subtitle_codec("mp4"));
    assert_eq!("mov_text", subtitle_codec("mov"));
    assert_eq!("mov_text", subtitle_codec(""));
}

#[test]
fn lines_of_splits_like_buffered_reading() {
    assert_eq!(owned(&["a", "b", "", "c"]), lines_of("a\nb\r\n\nc"));
    assert_eq!(owned(&["a"]), lines_of("a\n"));
    assert_eq!(owned(&["", ""]), lines_of("\n\n"));
    assert_eq!(owned(&["x\r"]), lines_of("x\r"));
    assert_eq!(Vec::<String>::new(), lines_of(""));
}

#[test]
fn empty_or_blank_text_gives_no_cues() {
    assert_eq!(0, parse_text("").len());
    assert_eq!(0, parse_text("\n\n\n").len());
}

#[test]
fn crlf_file_parses() {
    let cues = parse_text("1\r\n00:00:01,000 --> 00:00:02,000\r\nHi\r\n\r\n2\r\nt\r\nthere\r\n");

    assert_eq!(
        vec![cue(1, "00:00:01,000 --> 00:00:02,000", &["Hi"]), cue(2, "t", &["there"])],
        cues
    );
}

#[test]
fn file_names() {
    assert_eq!("movie_en.srt", subtitle_file_name("movie", "en"));
    assert_eq!("no-en", combined_suffix("no", "en"));
    assert_eq!("movie_no-en.srt", subtitle_file_name("movie", &combined_suffix("no", "en")));
}
