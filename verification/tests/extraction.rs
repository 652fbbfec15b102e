use cliplot::config::{Config, ConfigError, DEFAULT_PATTERN};
use cliplot::extractor::{
    extract_channels, extract_channels_at, readings, scan, sink_header, sink_rows, Capture, Data,
    Outcome, Phase, Row, CAPTURE_GROUP, CHUNK_SIZE,
};
use cliplot::matcher::{InvalidPattern, Matcher};
use std::path::PathBuf;

fn parse(captures: &[Capture]) -> Vec<Option<u64>> {
    captures.iter().map(|c| c.text.parse::<f64>().ok().map(f64::to_bits)).collect()
}

fn capture(channel: usize, text: &str) -> Capture {
    Capture { channel, text: text.to_string() }
}

fn config_of(patterns: &[&str]) -> Config {
    Config::build(Some(patterns.iter().map(|p| p.to_string()).collect()), None).unwrap()
}

fn working(buffer: &str, start_time: i64) -> Phase {
    Phase::Working { buffer: buffer.to_string(), start_time }
}

/// Feeds the chunks one after the other and returns the batches and the
/// buffer that is left.
fn feed(config: &Config, chunks: &[&[u8]], stamp: i64) -> (Vec<Vec<Data>>, String) {
    let mut phase = working("", 0);
    let mut batches = Vec::new();
    for chunk in chunks {
        let (next, outcome) = extract_channels_at(phase, config, Some(*chunk), stamp);
        match outcome {
            Outcome::Scanned { captures, stamp, .. } => {
                batches.push(readings(&captures, &parse(&captures), stamp));
            }
            other => panic!("expected a scan, got {:?}", describe(&other)),
        }
        phase = next;
    }
    match phase {
        Phase::Working { buffer, .. } => (batches, buffer),
        _ => panic!("expected to be working"),
    }
}

fn describe(outcome: &Outcome) -> String {
    match outcome {
        Outcome::Started { with_sink } => format!("Started({})", with_sink),
        Outcome::Scanned { captures, .. } => format!("Scanned({})", captures.len()),
        Outcome::Closed { flush } => format!("Closed({})", flush),
    }
}

fn values(batch: &[Data]) -> Vec<(usize, f64)> {
    batch.iter().map(|d| (d.channel, f64::from_bits(d.data))).collect()
}

#[test]
fn default_pattern_reads_two_numbers_from_one_chunk() {
    let config = Config::build(None, None).unwrap();
    let (batches, buffer) = feed(&config, &[b"$1.5$$2.5$"], 42);
    assert_eq!(batches.len(), 1);
    assert_eq!(values(&batches[0]), vec![(0, 1.5), (0, 2.5)]);
    assert_eq!(batches[0][0].stamp, 42);
    assert_eq!(batches[0][1].stamp, 42);
    assert_eq!(buffer, "");
}

#[test]
fn default_pattern_reads_the_same_from_a_split_input() {
    let config = Config::build(None, None).unwrap();
    let (batches, buffer) = feed(&config, &[b"$1.5$$2", b".5$"], 7);
    assert_eq!(batches.len(), 2);
    assert_eq!(values(&batches[0]), vec![(0, 1.5)]);
    assert_eq!(values(&batches[1]), vec![(0, 2.5)]);
    let all: Vec<(usize, f64)> = batches.iter().flat_map(|b| values(b)).collect();
    assert_eq!(all, vec![(0, 1.5), (0, 2.5)]);
    assert_eq!(buffer, "");
}

#[test]
fn split_in_four_byte_chunks_reads_the_same() {
    let config = Config::build(None, None).unwrap();
    let (batches, buffer) = feed(&config, &[b"$1.5", b"$$2.", b"5$ab"], 7);
    let all: Vec<(usize, f64)> = batches.iter().flat_map(|b| values(b)).collect();
    assert_eq!(all, vec![(0, 1.5), (0, 2.5)]);
    assert_eq!(buffer, "ab");
}

#[test]
fn two_matchers_are_read_in_channel_order() {
    let config = config_of(&[r"A:(\d+)", r"B:(\d+)"]);
    let (batches, _) = feed(&config, &[b"A:5B:7"], 1000);
    assert_eq!(batches.len(), 1);
    assert_eq!(values(&batches[0]), vec![(0, 5.0), (1, 7.0)]);
    assert_eq!(batches[0][0].stamp, batches[0][1].stamp);
}

#[test]
fn channel_order_comes_before_position() {
    let config = config_of(&[r"A:(\d+)", r"B:(\d+)"]);
    let (batches, buffer) = feed(&config, &[b"B:1A:2B:3A:4"], 0);
    assert_eq!(values(&batches[0]), vec![(0, 2.0), (0, 4.0), (1, 1.0), (1, 3.0)]);
    assert_eq!(buffer, "");
}

#[test]
fn malformed_capture_gives_no_reading() {
    let config = config_of(&[r"A:(\w+);", r"B:(\d+);"]);
    let (batches, buffer) = feed(&config, &[b"A:abc;B:7;A:3;"], 5);
    assert_eq!(values(&batches[0]), vec![(0, 3.0), (1, 7.0)]);
    assert_eq!(buffer, "");
}

#[test]
fn malformed_capture_still_lets_the_text_go() {
    let config = config_of(&[r"A:(\w+);"]);
    let (batches, buffer) = feed(&config, &[b"xxA:abc;yy"], 5);
    assert!(batches[0].is_empty());
    assert_eq!(buffer, "yy");
}

#[test]
fn empty_capture_of_default_pattern_is_dropped() {
    let config = Config::build(None, None).unwrap();
    let (batches, buffer) = feed(&config, &[b"$$1$"], 5);
    assert!(batches[0].is_empty());
    assert_eq!(buffer, "1$");
}

#[test]
fn buffer_is_untouched_without_a_match() {
    let config = Config::build(None, None).unwrap();
    let (batches, buffer) = feed(&config, &[b"abc$1", b".2"], 5);
    assert!(batches[0].is_empty());
    assert!(batches[1].is_empty());
    assert_eq!(buffer, "abc$1.2");
}

#[test]
fn buffer_keeps_what_follows_the_furthest_match() {
    let config = config_of(&[r"A:(\d+);", r"B:(\d+);"]);
    let (_, buffer) = feed(&config, &[b"B:1;A:2;B:3"], 0);
    assert_eq!(buffer, "B:3");
    let (_, buffer) = feed(&config, &[b"A:2;B:1;A:"], 0);
    assert_eq!(buffer, "A:");
}

#[test]
fn partial_match_is_completed_by_the_next_chunk() {
    let config = config_of(&[r"A:(\d+);"]);
    let (batches, buffer) = feed(&config, &[b"A:1;A:2", b"3;"], 0);
    assert_eq!(values(&batches[0]), vec![(0, 1.0)]);
    assert_eq!(values(&batches[1]), vec![(0, 23.0)]);
    assert_eq!(buffer, "");
}

#[test]
fn undelimited_pattern_depends_on_the_split() {
    let config = config_of(&[r"(\d+)"]);
    let (whole, _) = feed(&config, &[b"12"], 0);
    assert_eq!(values(&whole[0]), vec![(0, 12.0)]);
    let (split, _) = feed(&config, &[b"1", b"2"], 0);
    let all: Vec<(usize, f64)> = split.iter().flat_map(|b| values(b)).collect();
    assert_eq!(all, vec![(0, 1.0), (0, 2.0)]);
}

#[test]
fn overlapping_channels_can_lose_a_partial_match() {
    let config = config_of(&[r"x(\d)y", r"(\d)y!"]);
    let (whole, _) = feed(&config, &[b"x1y!"], 0);
    assert_eq!(values(&whole[0]), vec![(0, 1.0), (1, 1.0)]);
    let (split, buffer) = feed(&config, &[b"x1y", b"!"], 0);
    let all: Vec<(usize, f64)> = split.iter().flat_map(|b| values(b)).collect();
    assert_eq!(all, vec![(0, 1.0)]);
    assert_eq!(buffer, "!");
}

#[test]
fn invalid_bytes_are_replaced_not_rejected() {
    let config = config_of(&[r"A:(\d+);"]);
    let (batches, buffer) = feed(&config, &[b"A:1;\xff\xfeA:", b"2;\xc3"], 0);
    assert_eq!(values(&batches[0]), vec![(0, 1.0)]);
    assert_eq!(values(&batches[1]), vec![(0, 2.0)]);
    assert_eq!(buffer, "\u{fffd}");
}

#[test]
fn offsets_are_bytes_of_multi_byte_text() {
    let config = config_of(&[r"é(\d+)é"]);
    let (batches, buffer) = feed(&config, &["ßé12éüé3".as_bytes(), "4éö".as_bytes()], 0);
    assert_eq!(values(&batches[0]), vec![(0, 12.0)]);
    assert_eq!(values(&batches[1]), vec![(0, 34.0)]);
    assert_eq!(buffer, "ö");
}

#[test]
fn scan_reports_captures_and_cut() {
    let config = config_of(&[r"A:(\d+);", r"B:(\w+);"]);
    let found = scan(&config, "A:1;B:x;A:22;tail");
    let got: Vec<(usize, &str)> =
        found.captures.iter().map(|c| (c.channel, c.text.as_str())).collect();
    assert_eq!(got, vec![(0, "1"), (0, "22"), (1, "x")]);
    assert_eq!(found.cut, 13);
    let nothing = scan(&config, "no match here");
    assert!(nothing.captures.is_empty());
    assert_eq!(nothing.cut, 0);
}

#[test]
fn match_without_its_group_gives_no_capture() {
    let config = config_of(&[r"a|(b)"]);
    let found = scan(&config, "ab");
    let got: Vec<&str> = found.captures.iter().map(|c| c.text.as_str()).collect();
    assert_eq!(got, vec!["b"]);
    assert_eq!(found.cut, 2);
    let config = config_of(&[r"\d+;"]);
    let found = scan(&config, "12;");
    assert!(found.captures.is_empty());
    assert_eq!(found.cut, 3);
}

#[test]
fn readings_keep_order_and_skip_what_is_no_number() {
    let captures =
        vec![capture(0, "1.5"), capture(0, "abc"), capture(1, "-2"), capture(2, "")];
    let values = vec![Some(1.5f64.to_bits()), None, Some((-2.0f64).to_bits()), None];
    let batch = readings(&captures, &values, 99);
    assert_eq!(
        batch,
        vec![
            Data { stamp: 99, channel: 0, data: 1.5f64.to_bits() },
            Data { stamp: 99, channel: 1, data: (-2.0f64).to_bits() },
        ]
    );
    assert!(readings(&Vec::new(), &Vec::new(), 1).is_empty());
}

#[test]
fn readings_take_the_channel_from_the_capture() {
    let captures = vec![capture(3, "x"), capture(7, "y")];
    let batch = readings(&captures, &vec![Some(11), Some(22)], -5);
    assert_eq!(
        batch,
        vec![
            Data { stamp: -5, channel: 3, data: 11 },
            Data { stamp: -5, channel: 7, data: 22 },
        ]
    );
}

#[test]
fn readings_need_a_value_for_a_capture() {
    let captures = vec![capture(0, "1"), capture(1, "2"), capture(2, "3")];
    let batch = readings(&captures, &vec![Some(1), Some(2)], 0);
    assert_eq!(
        batch,
        vec![Data { stamp: 0, channel: 0, data: 1 }, Data { stamp: 0, channel: 1, data: 2 }]
    );
    assert!(readings(&captures, &Vec::new(), 0).is_empty());
    let batch = readings(&vec![capture(4, "1")], &vec![Some(1), Some(2), Some(3)], 0);
    assert_eq!(batch, vec![Data { stamp: 0, channel: 4, data: 1 }]);
}

#[test]
fn a_chunk_is_read_only_while_working() {
    assert!(!Phase::Starting.reads());
    assert!(working("", 0).reads());
    assert!(working("$1", 5).reads());
    assert!(!Phase::Closed.reads());
    assert_eq!(CHUNK_SIZE, 4);
}

#[test]
fn the_first_group_holds_the_number() {
    assert_eq!(CAPTURE_GROUP, 1);
    let config = config_of(&[r"(a)(\d+)(b)"]);
    let found = scan(&config, "a12b");
    let got: Vec<&str> = found.captures.iter().map(|c| c.text.as_str()).collect();
    assert_eq!(got, vec!["a"]);
    let config = config_of(&[r"x(?:y)(\d)"]);
    let found = scan(&config, "xy7");
    assert_eq!(found.captures[0].text, "7");
}

#[test]
fn starting_leads_to_working_and_emits_nothing() {
    let config = Config::build(None, None).unwrap();
    let (phase, outcome) = extract_channels_at(Phase::Starting, &config, None, 1234);
    assert!(matches!(outcome, Outcome::Started { with_sink: false }));
    match phase {
        Phase::Working { buffer, start_time } => {
            assert_eq!(buffer, "");
            assert_eq!(start_time, 1234);
        }
        _ => panic!("expected to be working"),
    }
    let with_sink = Config::build(None, Some(PathBuf::from("out.csv"))).unwrap();
    let (_, outcome) = extract_channels_at(Phase::Starting, &with_sink, Some(b"$1$"), 5);
    assert!(matches!(outcome, Outcome::Started { with_sink: true }));
}

#[test]
fn failed_read_closes_and_flushes_once() {
    let config = Config::build(None, None).unwrap();
    let (phase, outcome) = extract_channels_at(working("$1", 0), &config, None, 10);
    assert!(matches!(outcome, Outcome::Closed { flush: true }));
    assert!(matches!(phase, Phase::Closed));
    let (phase, outcome) = extract_channels_at(phase, &config, None, 11);
    assert!(matches!(outcome, Outcome::Closed { flush: false }));
    assert!(matches!(phase, Phase::Closed));
    let (phase, outcome) = extract_channels_at(phase, &config, Some(b"$1$"), 12);
    assert!(matches!(outcome, Outcome::Closed { flush: false }));
    assert!(matches!(phase, Phase::Closed));
}

#[test]
fn scan_carries_stamp_and_start_time() {
    let config = Config::build(None, None).unwrap();
    let (phase, outcome) = extract_channels_at(working("$1", 100), &config, Some(b"$x"), 350);
    match outcome {
        Outcome::Scanned { captures, stamp, start_time } => {
            assert_eq!(captures.len(), 1);
            assert_eq!(captures[0].text, "1");
            assert_eq!(captures[0].channel, 0);
            assert_eq!(stamp, 350);
            assert_eq!(start_time, 100);
        }
        _ => panic!("expected a scan"),
    }
    match phase {
        Phase::Working { buffer, start_time } => {
            assert_eq!(buffer, "x");
            assert_eq!(start_time, 100);
        }
        _ => panic!("expected to be working"),
    }
}

#[test]
fn clock_driven_activation_follows_the_same_steps() {
    let config = Config::build(None, None).unwrap();
    let (phase, outcome) = extract_channels(Phase::Starting, &config, None);
    assert!(matches!(outcome, Outcome::Started { with_sink: false }));
    let started = match &phase {
        Phase::Working { buffer, start_time } => {
            assert_eq!(buffer, "");
            *start_time
        }
        _ => panic!("expected to be working"),
    };
    let (phase, outcome) = extract_channels(phase, &config, Some(b"$3.25$rest"));
    match outcome {
        Outcome::Scanned { captures, stamp, start_time } => {
            assert_eq!(captures.len(), 1);
            assert_eq!(captures[0].text, "3.25");
            assert_eq!(start_time, started);
            assert!(stamp >= started);
        }
        _ => panic!("expected a scan"),
    }
    let (phase, outcome) = extract_channels(phase, &config, None);
    assert!(matches!(outcome, Outcome::Closed { flush: true }));
    assert!(matches!(phase, Phase::Closed));
}

#[test]
fn sink_rows_hold_elapsed_time() {
    let batch = vec![
        Data { stamp: 1500, channel: 0, data: 1.5f64.to_bits() },
        Data { stamp: 1500, channel: 1, data: 2.5f64.to_bits() },
        Data { stamp: 900, channel: 2, data: 0 },
    ];
    let rows = sink_rows(&batch, 1000);
    assert_eq!(
        rows,
        vec![
            Row { elapsed: 500, data: 1.5f64.to_bits(), channel: 0 },
            Row { elapsed: 500, data: 2.5f64.to_bits(), channel: 1 },
            Row { elapsed: -100, data: 0, channel: 2 },
        ]
    );
    let far = sink_rows(&[Data { stamp: i64::MAX, channel: 0, data: 0 }].to_vec(), i64::MIN);
    assert_eq!(far[0].elapsed, i64::MAX as i128 - i64::MIN as i128);
}

#[test]
fn sink_header_names_three_fields() {
    assert_eq!(sink_header(), ["Timestamp", "Data", "Channel"]);
}

#[test]
fn default_reading_is_zero() {
    assert_eq!(Data::default(), Data { stamp: 0, channel: 0, data: 0 });
    assert_eq!(f64::from_bits(Data::default().data), 0.0);
}

#[test]
fn default_configuration_has_one_channel() {
    let config = Config::build(None, None).unwrap();
    assert_eq!(config.channels(), 1);
    assert_eq!(config.matchers[0].pattern(), DEFAULT_PATTERN);
    assert_eq!(DEFAULT_PATTERN, r"\$([+|-]?\d*\.?\d*)\$");
    assert!(config.csv.is_none());
}

#[test]
fn configuration_keeps_patterns_in_order() {
    let config = Config::build(
        Some(vec!["a(1)".to_string(), "b(2)".to_string(), "c(3)".to_string()]),
        Some(PathBuf::from("log.csv")),
    )
    .unwrap();
    assert_eq!(config.channels(), 3);
    let patterns: Vec<&str> = config.matchers.iter().map(|m| m.pattern()).collect();
    assert_eq!(patterns, vec!["a(1)", "b(2)", "c(3)"]);
    assert_eq!(config.csv, Some(PathBuf::from("log.csv")));
}

#[test]
fn configuration_without_channels_is_accepted() {
    let config = Config::build(Some(Vec::new()), None).unwrap();
    assert_eq!(config.channels(), 0);
    let (batches, buffer) = feed(&config, &[b"$1$"], 0);
    assert!(batches[0].is_empty());
    assert_eq!(buffer, "$1$");
}

#[test]
fn invalid_pattern_is_reported_with_its_index() {
    let result = Config::build(
        Some(vec!["ok(1)".to_string(), "bad(".to_string(), "also bad[".to_string()]),
        None,
    );
    assert!(matches!(result, Err(ConfigError::InvalidPattern(1))));
    let result = Config::build(Some(vec!["(".to_string()]), None);
    assert!(matches!(result, Err(ConfigError::InvalidPattern(0))));
}

#[test]
fn matcher_compiles_or_refuses() {
    assert!(Matcher::new(r"A:(\d+)").is_ok());
    assert!(Matcher::new(r"A:(\d+").is_err());
    assert_eq!(Matcher::new(r"x(y)z").unwrap().pattern(), "x(y)z");
}

fn by_channel(batches: &[Vec<Data>], channels: usize) -> Vec<Vec<f64>> {
    let mut out = vec![Vec::new(); channels];
    for batch in batches {
        for reading in batch {
            out[reading.channel].push(f64::from_bits(reading.data));
        }
    }
    out
}

#[test]
fn every_cut_in_two_reads_the_same_with_the_default_pattern() {
    let config = Config::build(None, None).unwrap();
    let input = b"xx$1.5$$2.5$ $-3$y$4$$$5$.$ $+.5$ $6";
    let (whole, rest) = feed(&config, &[input], 0);
    assert_eq!(by_channel(&whole, 1), vec![vec![1.5, 2.5, -3.0, 4.0, 0.5]]);
    assert_eq!(rest, " $6");
    for at in 0..=input.len() {
        let (split, left) = feed(&config, &[&input[..at], &input[at..]], 0);
        assert_eq!(by_channel(&split, 1), by_channel(&whole, 1), "cut at {}", at);
        assert_eq!(left, rest, "cut at {}", at);
    }
}

#[test]
fn every_cut_in_three_reads_the_same_on_each_channel() {
    let config = config_of(&[r"A:(\d+);", r"B:(\d+);"]);
    let input = b"A:1;B:2;junkB:30;A:x;A:44;B:5";
    let (whole, rest) = feed(&config, &[input], 0);
    assert_eq!(by_channel(&whole, 2), vec![vec![1.0, 44.0], vec![2.0, 30.0]]);
    assert_eq!(rest, "B:5");
    for first in 0..=input.len() {
        for second in first..=input.len() {
            let chunks: [&[u8]; 3] = [&input[..first], &input[first..second], &input[second..]];
            let (split, left) = feed(&config, &chunks, 0);
            assert_eq!(by_channel(&split, 2), by_channel(&whole, 2), "cuts at {} {}", first, second);
            assert_eq!(left, rest, "cuts at {} {}", first, second);
        }
    }
}

#[test]
fn cut_through_a_character_changes_the_text() {
    let config = config_of(&[r"é(\d+)é"]);
    let input = "é12é".as_bytes();
    let (whole, _) = feed(&config, &[input], 0);
    assert_eq!(by_channel(&whole, 1), vec![vec![12.0]]);
    let (split, left) = feed(&config, &[&input[..1], &input[1..]], 0);
    assert_eq!(by_channel(&split, 1), vec![Vec::<f64>::new()]);
    assert_eq!(left, "\u{fffd}\u{fffd}12é");
}

#[test]
fn assembling_takes_every_attempt_to_have_succeeded() {
    let attempts = vec![Matcher::new("a(1)"), Matcher::new("b(2)")];
    let config = Config::assemble(attempts, Some(PathBuf::from("out.csv"))).unwrap();
    let patterns: Vec<&str> = config.matchers.iter().map(|m| m.pattern()).collect();
    assert_eq!(patterns, vec!["a(1)", "b(2)"]);
    assert_eq!(config.csv, Some(PathBuf::from("out.csv")));
    let none = Config::assemble(Vec::new(), None).unwrap();
    assert_eq!(none.channels(), 0);
    assert!(none.csv.is_none());
}

#[test]
fn assembling_reports_the_first_failure() {
    let attempts = vec![
        Matcher::new("a(1)"),
        Err(InvalidPattern),
        Matcher::new("c(3)"),
        Err(InvalidPattern),
    ];
    assert!(matches!(Config::assemble(attempts, None), Err(ConfigError::InvalidPattern(1))));
    let attempts = vec![Matcher::new("(")];
    assert!(matches!(Config::assemble(attempts, None), Err(ConfigError::InvalidPattern(0))));
    let attempts = vec![Matcher::new("a"), Matcher::new("b"), Matcher::new("[")];
    assert!(matches!(Config::assemble(attempts, None), Err(ConfigError::InvalidPattern(2))));
}

#[test]
fn pattern_that_compiles_once_compiles_again() {
    for pattern in [r"A:(\d+)", r"\$([+|-]?\d*\.?\d*)\$", "(", "[", r"\w{1000}", ""] {
        let first = Matcher::new(pattern).is_ok();
        let second = Matcher::new(pattern).is_ok();
        assert_eq!(first, second, "{}", pattern);
        let built = Config::build(Some(vec![pattern.to_string()]), None);
        assert_eq!(built.is_ok(), first, "{}", pattern);
    }
    assert!(Matcher::new(r"\w{1000}").is_err());
    assert!(Matcher::new("").is_ok());
}

#[test]
fn building_stops_at_the_first_pattern_that_does_not_compile() {
    let patterns = vec!["a(1)".to_string(), "b(".to_string(), "c(3)".to_string(), "[".to_string()];
    assert!(matches!(Config::build(Some(patterns), None), Err(ConfigError::InvalidPattern(1))));
    let patterns = vec!["a(1)".to_string(), "b(2)".to_string(), "c(3)".to_string()];
    let config = Config::build(Some(patterns), None).unwrap();
    assert_eq!(config.channels(), 3);
}
