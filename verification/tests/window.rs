use cliplot::chart::SignalChart;
use cliplot::config::Config;
use cliplot::extractor::Data;
use cliplot::interface::{window_from_text, Flags, Message, State, WINDOW_LIMIT_MS};
use std::path::PathBuf;
use std::sync::Arc;

fn state_with(patterns: &[&str], now: i64) -> State {
    let config =
        Config::build(Some(patterns.iter().map(|p| p.to_string()).collect()), None).unwrap();
    State::new_at(Flags { extractor_conf: Arc::new(config) }, now)
}

fn stamps(chart: &SignalChart) -> Vec<Vec<i64>> {
    chart
        .snapshot_for_display(u64::MAX)
        .series
        .iter()
        .map(|s| s.iter().map(|d| d.stamp).collect())
        .collect()
}

#[test]
fn typed_window_is_read_in_milliseconds() {
    assert_eq!(window_from_text("5000ms"), 5000);
    assert_eq!(window_from_text("1ms"), 1);
    assert_eq!(window_from_text("250ms"), 250);
    assert_eq!(window_from_text("+250ms"), 250);
    assert_eq!(window_from_text("000750ms"), 750);
    assert_eq!(window_from_text("2147483646ms"), 2147483646);
}

#[test]
fn typed_window_out_of_range_falls_back() {
    assert_eq!(WINDOW_LIMIT_MS, i32::MAX as u64);
    assert_eq!(window_from_text("0ms"), 5000);
    assert_eq!(window_from_text("000ms"), 5000);
    assert_eq!(window_from_text("2147483647ms"), 5000);
    assert_eq!(window_from_text("2147483648ms"), 5000);
    assert_eq!(window_from_text("99999999999999999999999999ms"), 5000);
    assert_eq!(window_from_text("18446744073709551616ms"), 5000);
}

#[test]
fn typed_window_that_is_no_number_falls_back() {
    assert_eq!(window_from_text(""), 5000);
    assert_eq!(window_from_text("ms"), 5000);
    assert_eq!(window_from_text("+ms"), 5000);
    assert_eq!(window_from_text("m"), 5000);
    assert_eq!(window_from_text("100"), 5000);
    assert_eq!(window_from_text("100 ms"), 5000);
    assert_eq!(window_from_text(" 100ms"), 5000);
    assert_eq!(window_from_text("-100ms"), 5000);
    assert_eq!(window_from_text("++100ms"), 5000);
    assert_eq!(window_from_text("1+00ms"), 5000);
    assert_eq!(window_from_text("1.5ms"), 5000);
    assert_eq!(window_from_text("12a4ms"), 5000);
    assert_eq!(window_from_text("100msms"), 5000);
    assert_eq!(window_from_text("100s"), 5000);
    assert_eq!(window_from_text("１２ms"), 5000);
    assert_eq!(window_from_text("é5ms"), 5000);
}

#[test]
fn state_starts_open_with_one_channel_per_matcher() {
    let state = state_with(&["a(1)", "b(2)"], 777);
    assert_eq!(state.chart().channels(), 2);
    assert_eq!(state.chart().get_time_domain(), 5000);
    assert_eq!(state.config().channels(), 2);
    assert!(state.subscription());
    assert_eq!(state.title(), "cliplot");
    let plot = state.chart().build_chart();
    assert_eq!(plot.to_ms, -777);
}

#[test]
fn state_started_by_the_clock_is_open() {
    let config = Config::build(None, None).unwrap();
    let state = State::new(Flags { extractor_conf: Arc::new(config) });
    assert_eq!(state.chart().channels(), 1);
    assert!(state.subscription());
}

#[test]
fn batch_is_pushed_reading_by_reading() {
    let mut state = state_with(&["a(1)", "b(2)"], 0);
    state.update(Message::SliderChanged(1000));
    state.update(Message::Data(vec![
        Data { stamp: 0, channel: 0, data: 1.0f64.to_bits() },
        Data { stamp: 0, channel: 1, data: 2.0f64.to_bits() },
    ]));
    state.update(Message::Data(Vec::new()));
    state.update(Message::Data(vec![
        Data { stamp: 500, channel: 0, data: 3.0f64.to_bits() },
        Data { stamp: 1500, channel: 0, data: 0.5f64.to_bits() },
    ]));
    assert_eq!(stamps(state.chart()), vec![vec![1500, 500], vec![0]]);
    let shown = state.chart().snapshot_for_display(0);
    assert_eq!(f64::from_bits(shown.display_min), 0.5);
    assert_eq!(f64::from_bits(shown.display_max), 3.0);
    assert!(state.subscription());
}

#[test]
fn slider_changes_the_window() {
    let mut state = state_with(&["a(1)"], 0);
    state.update(Message::SliderChanged(123));
    assert_eq!(state.chart().get_time_domain(), 123);
    state.update(Message::SliderChanged(window_from_text("nonsense")));
    assert_eq!(state.chart().get_time_domain(), 5000);
}

#[test]
fn closed_input_ends_the_subscription() {
    let mut state = state_with(&["a(1)"], 0);
    state.update(Message::Data(vec![Data { stamp: 5, channel: 0, data: 0 }]));
    state.update(Message::Closed);
    assert!(!state.subscription());
    assert_eq!(stamps(state.chart()), vec![vec![5]]);
    state.update(Message::Closed);
    assert!(!state.subscription());
}

#[test]
fn state_keeps_the_configuration_it_was_started_with() {
    let config = Config::build(
        Some(vec!["a(1)".to_string(), "b(2)".to_string()]),
        Some(PathBuf::from("readings.csv")),
    )
    .unwrap();
    let given = Arc::new(config);
    let state = State::new_at(Flags { extractor_conf: given.clone() }, 3);
    assert!(Arc::ptr_eq(state.config(), &given));
    assert_eq!(state.config().csv, Some(PathBuf::from("readings.csv")));
    let patterns: Vec<&str> = state.config().matchers.iter().map(|m| m.pattern()).collect();
    assert_eq!(patterns, vec!["a(1)", "b(2)"]);
    let mut state = state;
    state.update(Message::SliderChanged(7));
    state.update(Message::Closed);
    assert!(Arc::ptr_eq(state.config(), &given));
}
