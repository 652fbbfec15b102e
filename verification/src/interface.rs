//! What the operator's window does with the store: the messages it takes,
//! and the rule for the window length typed into it.

use crate::chart::{
    lemma_pushed_upto_channels, pushed_all, pushed_upto, within, ChartView, SignalChart,
    DEFAULT_WINDOW_MS,
};
use crate::config::Config;
use crate::extractor::{now_millis, Data};
use std::sync::Arc;
use vstd::prelude::*;
use vstd::string::*;

verus! {

/// A window length must stay below this many milliseconds.
pub const WINDOW_LIMIT_MS: u64 = 2147483647;

/// What the application is told.
#[derive(Debug, Clone)]
pub enum Message {
    /// A batch of readings.
    Data(Vec<Data>),
    /// The input has ended.
    Closed,
    /// The window length was changed, to this many milliseconds.
    SliderChanged(u64),
}

/// What the application is started with.
pub struct Flags {
    /// The configuration the extraction is to run with.
    pub extractor_conf: Arc<Config>,
}

/// Application state.
pub struct State {
    chart: SignalChart,
    extractor_conf: Arc<Config>,
    stdin_closed: bool,
}

/// What a [`State`] holds.
pub struct StateView {
    /// The store.
    pub chart: ChartView,
    /// The configuration the extraction runs with: matchers and sink.
    pub config: Arc<Config>,
    /// Whether the input has ended.
    pub stdin_closed: bool,
}

impl View for State {
    type V = StateView;

    closed spec fn view(&self) -> StateView {
        StateView {
            chart: self.chart@,
            config: self.extractor_conf,
            stdin_closed: self.stdin_closed,
        }
    }
}

impl StateView {
    /// The state once `message` has been taken.
    pub open spec fn updated(self, message: Message) -> StateView {
        match message {
            Message::Data(batch) => StateView { chart: pushed_all(self.chart, batch@), ..self },
            Message::Closed => StateView { stdin_closed: true, ..self },
            Message::SliderChanged(time_ms) => StateView {
                chart: ChartView { window: time_ms, ..self.chart },
                ..self
            },
        }
    }
}

impl State {
    /// The state at the start, at time `now`: an empty store with one
    /// channel per matcher, the configuration it was given, and the input
    /// open.
    pub fn new_at(flags: Flags, now: i64) -> (state: State)
        ensures
            state@ == (StateView {
                chart: ChartView::fresh(flags.extractor_conf.patterns().len(), now),
                config: flags.extractor_conf,
                stdin_closed: false,
            }),
    {
        State {
            chart: SignalChart::new(flags.extractor_conf.matchers.len(), now),
            extractor_conf: flags.extractor_conf,
            stdin_closed: false,
        }
    }

    /// The state at the start, at whatever time the clock gives.
    pub fn new(flags: Flags) -> (state: State)
        ensures
            exists|now: i64|
                state@ == (StateView {
                    chart: #[trigger] ChartView::fresh(flags.extractor_conf.patterns().len(), now),
                    config: flags.extractor_conf,
                    stdin_closed: false,
                }),
    {
        let now = now_millis();
        State::new_at(flags, now)
    }

    /// The title of the window.
    pub fn title(&self) -> (title: String)
        ensures
            title@ == "cliplot"@,
    {
        String::from_str("cliplot")
    }

    /// The store.
    pub fn chart(&self) -> (chart: &SignalChart)
        ensures
            chart@ == self@.chart,
    {
        &self.chart
    }

    /// The configuration the extraction runs with: the one the state was
    /// started with, matchers and sink.
    pub fn config(&self) -> (config: &Arc<Config>)
        ensures
            *config == self@.config,
    {
        &self.extractor_conf
    }

    /// Takes a message: a batch is pushed into the store reading by
    /// reading, the end of the input is noted, and a changed window length
    /// is handed to the store.
    pub fn update(&mut self, message: Message)
        requires
            message matches Message::Data(batch) ==> within(
                batch@,
                old(self)@.chart.channels.len(),
            ),
        ensures
            final(self)@ == old(self)@.updated(message),
    {
        match message {
            Message::Data(batch) => {
                let mut at: usize = 0;
                while at < batch.len()
                    invariant
                        at <= batch.len(),
                        within(batch@, old(self)@.chart.channels.len()),
                        self.extractor_conf == old(self).extractor_conf,
                        self.stdin_closed == old(self).stdin_closed,
                        self.chart@ == pushed_upto(old(self)@.chart, batch@, at as int),
                    decreases batch.len() - at,
                {
                    proof {
                        lemma_pushed_upto_channels(old(self)@.chart, batch@, at as int);
                    }
                    self.chart.push_data(batch[at]);
                    at = at + 1;
                }
            },
            Message::Closed => {
                self.stdin_closed = true;
            },
            Message::SliderChanged(time_ms) => {
                self.chart.set_time_domain(time_ms);
            },
        }
    }

    /// Whether the extraction is to be kept going: it is until the input
    /// has ended.
    pub fn subscription(&self) -> (listening: bool)
        ensures
            listening == !self@.stdin_closed,
    {
        !self.stdin_closed
    }
}

/// True when every character is a decimal digit and there is at least one.
pub open spec fn is_digits(text: Seq<char>) -> bool {
    text.len() > 0 && forall|i: int| 0 <= i < text.len() ==> '0' <= #[trigger] text[i] <= '9'
}

/// The number that a run of decimal digits writes.
pub open spec fn digits_value(text: Seq<char>) -> nat
    decreases text.len(),
{
    if text.len() == 0 {
        0
    } else {
        digits_value(text.drop_last()) * 10 + (text.last() as nat - '0' as nat) as nat
    }
}

/// The digits of a number written with or without a `+` in front.
pub open spec fn unsigned_digits(text: Seq<char>) -> Seq<char> {
    if text.len() > 0 && text[0] == '+' {
        text.drop_first()
    } else {
        text
    }
}

/// True when `text` ends in `ms`.
pub open spec fn has_unit(text: Seq<char>) -> bool {
    text.len() >= 2 && text[text.len() - 2] == 'm' && text[text.len() - 1] == 's'
}

/// The window length that `text` asks for: `text` is a whole number of
/// milliseconds above 0 and below [`WINDOW_LIMIT_MS`], followed by `ms`.
/// `None` for every other text.
pub open spec fn window_asked(text: Seq<char>) -> Option<u64> {
    let digits = unsigned_digits(text.take(text.len() - 2));
    if has_unit(text) && is_digits(digits) && 0 < digits_value(digits) < WINDOW_LIMIT_MS {
        Some(digits_value(digits) as u64)
    } else {
        None
    }
}

/// The window length to use for what was typed: the length asked for, and
/// [`DEFAULT_WINDOW_MS`] where the text asks for none.
pub open spec fn window_of(text: Seq<char>) -> u64 {
    match window_asked(text) {
        Some(time_ms) => time_ms,
        None => DEFAULT_WINDOW_MS,
    }
}

/// A longer run of digits writes a number at least as large.
proof fn lemma_digits_value_grows(text: Seq<char>, n: int)
    requires
        0 <= n <= text.len(),
    ensures
        digits_value(text.take(n)) <= digits_value(text),
    decreases text.len() - n,
{
    if n < text.len() {
        lemma_digits_value_grows(text, n + 1);
        assert(text.take(n + 1).drop_last() =~= text.take(n));
    } else {
        assert(text.take(n) =~= text);
    }
}

/// The characters of a string.
fn chars_of(text: &str) -> (chars: Vec<char>)
    ensures
        chars@ == text@,
{
    let total: usize = text.unicode_len();
    let mut chars: Vec<char> = Vec::new();
    let mut at: usize = 0;
    while at < total
        invariant
            at <= total,
            total == text@.len(),
            chars@ == text@.take(at as int),
        decreases total - at,
    {
        chars.push(text.get_char(at));
        proof {
            assert(chars@ =~= text@.take(at + 1));
        }
        at = at + 1;
    }
    proof {
        assert(text@.take(at as int) =~= text@);
    }
    chars
}

/// Reads the window length typed by the operator: see [`window_of`].
pub fn window_from_text(text: &str) -> (time_ms: u64)
    ensures
        time_ms == window_of(text@),
{
    let chars = chars_of(text);
    let total: usize = chars.len();
    if total < 2 || chars[total - 2] != 'm' || chars[total - 1] != 's' {
        return DEFAULT_WINDOW_MS;
    }
    let end: usize = total - 2;
    let start: usize = if end > 0 && chars[0] == '+' {
        1
    } else {
        0
    };
    let ghost digits = unsigned_digits(text@.take(end as int));
    proof {
        assert(digits =~= text@.subrange(start as int, end as int));
    }
    if start == end {
        return DEFAULT_WINDOW_MS;
    }
    let mut value: u64 = 0;
    let mut at: usize = start;
    proof {
        assert(digits.take(0) =~= Seq::<char>::empty());
    }
    while at < end
        invariant
            start <= at <= end,
            end == total - 2,
            total == chars@.len(),
            chars@ == text@,
            digits == text@.subrange(start as int, end as int),
            digits == unsigned_digits(text@.take(text@.len() - 2)),
            has_unit(text@),
            is_digits(digits.take(at - start)) || at == start,
            value == digits_value(digits.take(at - start)),
            value < WINDOW_LIMIT_MS,
        decreases end - at,
    {
        let c: char = chars[at];
        if c < '0' || c > '9' {
            proof {
                assert(digits[at - start] == c);
            }
            return DEFAULT_WINDOW_MS;
        }
        let digit: u64 = (c as u64) - ('0' as u64);
        let next: u64 = value * 10 + digit;
        proof {
            let longer = digits.take(at - start + 1);
            assert(longer.drop_last() =~= digits.take(at - start));
            assert(longer.last() == c);
            assert(next == digits_value(longer));
            assert forall|i: int| 0 <= i < longer.len() implies '0' <= #[trigger] longer[i]
                <= '9' by {
                if i < at - start {
                    assert(digits.take(at - start)[i] == longer[i]);
                }
            }
        }
        if next >= WINDOW_LIMIT_MS {
            proof {
                lemma_digits_value_grows(digits, at - start + 1);
                if is_digits(digits) {
                    assert(digits_value(digits) >= WINDOW_LIMIT_MS);
                }
            }
            return DEFAULT_WINDOW_MS;
        }
        value = next;
        at = at + 1;
    }
    proof {
        assert(digits.take(at - start) =~= digits);
    }
    if value == 0 {
        DEFAULT_WINDOW_MS
    } else {
        value
    }
}

} // verus!
