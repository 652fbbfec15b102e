//! The streaming extractor: text arrives in chunks, every matcher is run
//! over what has been kept so far, and what lies before the furthest match
//! is let go.

use crate::config::Config;
use crate::matcher::{find_spans, group_span, regex_find_all, regex_group_at, spans_fit, Matcher};
use crate::text::{
    decode_lossy, decoded_text, is_boundary, lemma_tail_from_start, slice, slice_of, tail, tail_of,
};
use vstd::prelude::*;
use vstd::string::*;

verus! {

/// The number of bytes to ask the input for at a time. Every scan runs over
/// the whole buffer, so a chunk is kept small: readings are passed on soon
/// after their bytes arrive, at the price of more scans.
pub const CHUNK_SIZE: usize = 4;

/// One reading.
#[derive(Copy, Clone, Debug, PartialEq, Eq, Structural)]
pub struct Data {
    /// When the scan that found the reading completed, in milliseconds
    /// since the Unix epoch.
    pub stamp: i64,
    /// Channel the reading is from. Starts at 0.
    pub channel: usize,
    /// The reading, as the bits of an IEEE 754 double.
    pub data: u64,
}

impl Default for Data {
    fn default() -> (d: Data)
        ensures
            d == (Data { stamp: 0, channel: 0, data: 0 }),
    {
        Data { stamp: 0, channel: 0, data: 0 }
    }
}

/// The text that a matcher's capture group took out of a match, not yet
/// read as a number.
#[derive(Debug)]
pub struct Capture {
    /// Channel of the matcher.
    pub channel: usize,
    /// The captured text.
    pub text: String,
}

/// What a [`Capture`] holds.
pub struct Token {
    pub channel: int,
    pub text: Seq<char>,
}

impl View for Capture {
    type V = Token;

    open spec fn view(&self) -> Token {
        Token { channel: self.channel as int, text: self.text@ }
    }
}

/// What a list of captures holds, in order.
pub open spec fn tokens_of(captures: Seq<Capture>) -> Seq<Token> {
    captures.map_values(|c: Capture| c@)
}

/// The given texts as tokens of one channel.
pub open spec fn tagged(channel: int, texts: Seq<Seq<char>>) -> Seq<Token> {
    texts.map_values(|text: Seq<char>| Token { channel, text })
}

/// The capture group that holds the text of the number: the first.
pub const CAPTURE_GROUP: usize = 1;

/// The text that the capture group took out of the match `found`, if it
/// took part in that match.
pub open spec fn capture_of(pattern: Seq<char>, haystack: Seq<char>, found: (usize, usize)) -> Option<
    Seq<char>,
> {
    match regex_group_at(pattern, haystack, found.0 as int, CAPTURE_GROUP as int) {
        Some(group) => Some(slice(haystack, group.0 as int, group.1 as int)),
        None => None,
    }
}

/// The texts captured in the given matches of `pattern` in `haystack`, in
/// the order of the matches. A match whose capture group took no part
/// contributes nothing.
pub open spec fn captured_among(
    pattern: Seq<char>,
    haystack: Seq<char>,
    spans: Seq<(usize, usize)>,
) -> Seq<Seq<char>> {
    spans.filter_map(|found: (usize, usize)| capture_of(pattern, haystack, found))
}

/// The texts captured by `pattern` in `haystack`, match by match from left
/// to right.
pub open spec fn captured(pattern: Seq<char>, haystack: Seq<char>) -> Seq<Seq<char>> {
    captured_among(pattern, haystack, regex_find_all(pattern, haystack))
}

/// The largest end offset among the first `n` spans, 0 when `n` is 0.
pub open spec fn reach_upto(spans: Seq<(usize, usize)>, n: int) -> int
    decreases n,
{
    if n <= 0 {
        0
    } else if spans[n - 1].1 > reach_upto(spans, n - 1) {
        spans[n - 1].1 as int
    } else {
        reach_upto(spans, n - 1)
    }
}

/// The largest end offset among `spans`, 0 when there are none.
pub open spec fn reach(spans: Seq<(usize, usize)>) -> int {
    reach_upto(spans, spans.len() as int)
}

/// What one scan of `haystack` with the first `n` patterns captures:
/// channel by channel, and within a channel match by match.
pub open spec fn tokens_upto(patterns: Seq<Seq<char>>, haystack: Seq<char>, n: int) -> Seq<Token>
    decreases n,
{
    if n <= 0 {
        Seq::empty()
    } else {
        tokens_upto(patterns, haystack, n - 1) + tagged(n - 1, captured(patterns[n - 1], haystack))
    }
}

/// What one scan of `haystack` captures.
pub open spec fn tokens(patterns: Seq<Seq<char>>, haystack: Seq<char>) -> Seq<Token> {
    tokens_upto(patterns, haystack, patterns.len() as int)
}

/// The furthest end of any match of the first `n` patterns in `haystack`,
/// 0 when nothing matches.
pub open spec fn cut_upto(patterns: Seq<Seq<char>>, haystack: Seq<char>, n: int) -> int
    decreases n,
{
    if n <= 0 {
        0
    } else {
        let before = cut_upto(patterns, haystack, n - 1);
        let here = reach(regex_find_all(patterns[n - 1], haystack));
        if here > before {
            here
        } else {
            before
        }
    }
}

/// The furthest end of any match of any pattern in `haystack`, 0 when
/// nothing matches: the byte offset up to which a scan lets the text go.
pub open spec fn cut(patterns: Seq<Seq<char>>, haystack: Seq<char>) -> int {
    cut_upto(patterns, haystack, patterns.len() as int)
}

/// Every capture of a scan names the channel of one of the matchers.
pub proof fn lemma_tokens_name_channels(patterns: Seq<Seq<char>>, haystack: Seq<char>, n: int)
    requires
        0 <= n <= patterns.len(),
    ensures
        forall|i: int|
            0 <= i < tokens_upto(patterns, haystack, n).len() ==> 0 <= (#[trigger] tokens_upto(
                patterns,
                haystack,
                n,
            )[i]).channel < n,
    decreases n,
{
    if n > 0 {
        lemma_tokens_name_channels(patterns, haystack, n - 1);
        let before = tokens_upto(patterns, haystack, n - 1);
        let here = tagged(n - 1, captured(patterns[n - 1], haystack));
        assert forall|i: int| 0 <= i < (before + here).len() implies 0 <= (#[trigger] (before
            + here)[i]).channel < n by {
            if i < before.len() {
                assert((before + here)[i] == before[i]);
            } else {
                assert((before + here)[i] == here[i - before.len()]);
            }
        }
    }
}

/// Runs one matcher over `haystack`, appends what it captured, and returns
/// the furthest end of its matches.
fn scan_channel(matcher: &Matcher, channel: usize, haystack: &str, captures: &mut Vec<Capture>) -> (far:
    usize)
    ensures
        tokens_of(final(captures)@) == tokens_of(old(captures)@) + tagged(
            channel as int,
            captured(matcher@, haystack@),
        ),
        far == reach(regex_find_all(matcher@, haystack@)),
        is_boundary(haystack@, far as int),
        spans_fit(regex_find_all(matcher@, haystack@), haystack@),
{
    let ghost before = tokens_of(captures@);
    let spans = find_spans(matcher, haystack);
    let mut far: usize = 0;
    let mut at: usize = 0;
    proof {
        lemma_tail_from_start(haystack@);
        assert(tokens_of(captures@) =~= before + tagged(
            channel as int,
            captured_among(matcher@, haystack@, spans@.take(0)),
        ));
    }
    while at < spans.len()
        invariant
            at <= spans.len(),
            spans@ == regex_find_all(matcher@, haystack@),
            spans_fit(spans@, haystack@),
            tokens_of(captures@) == before + tagged(
                channel as int,
                captured_among(matcher@, haystack@, spans@.take(at as int)),
            ),
            far == reach_upto(spans@, at as int),
            is_boundary(haystack@, far as int),
        decreases spans.len() - at,
    {
        let found = spans[at];
        if found.1 > far {
            far = found.1;
        }
        let ghost held = captures@;
        let ghost texts = captured_among(matcher@, haystack@, spans@.take(at as int));
        proof {
            spans@.lemma_filter_map_take_succ(
                |found: (usize, usize)| capture_of(matcher@, haystack@, found),
                at as int,
            );
        }
        match group_span(matcher, haystack, found.0, CAPTURE_GROUP) {
            Some(group) => {
                let text = slice_of(haystack, group.0, group.1);
                captures.push(Capture { channel, text });
                proof {
                    let token = Token { channel: channel as int, text: text@ };
                    assert(tokens_of(captures@) =~= tokens_of(held).push(token));
                    assert(tagged(channel as int, texts + seq![text@]) =~= tagged(
                        channel as int,
                        texts,
                    ).push(token));
                }
            },
            None => {
                proof {
                    assert(texts + Seq::<Seq<char>>::empty() =~= texts);
                }
            },
        }
        at = at + 1;
    }
    proof {
        assert(spans@.take(at as int) =~= spans@);
    }
    far
}

/// What one scan found: the captures, and how much of the text can go.
pub struct Scan {
    /// The captured texts, ordered by channel and within a channel by
    /// position.
    pub captures: Vec<Capture>,
    /// The furthest end of any match, in bytes; 0 when nothing matched.
    pub cut: usize,
}

/// Runs every matcher, in the order of the channels, over the whole of
/// `haystack`.
pub fn scan(config: &Config, haystack: &str) -> (found: Scan)
    ensures
        tokens_of(found.captures@) == tokens(config.patterns(), haystack@),
        found.cut == cut(config.patterns(), haystack@),
        is_boundary(haystack@, found.cut as int),
        forall|c: int|
            0 <= c < config.patterns().len() ==> spans_fit(
                regex_find_all(#[trigger] config.patterns()[c], haystack@),
                haystack@,
            ),
        forall|i: int|
            0 <= i < found.captures@.len() ==> (#[trigger] found.captures@[i]).channel
                < config.patterns().len(),
{
    let mut captures: Vec<Capture> = Vec::new();
    let mut cut: usize = 0;
    let mut channel: usize = 0;
    proof {
        lemma_tail_from_start(haystack@);
        assert(tokens_of(captures@) =~= tokens_upto(config.patterns(), haystack@, 0));
    }
    while channel < config.matchers.len()
        invariant
            channel <= config.matchers.len(),
            tokens_of(captures@) == tokens_upto(config.patterns(), haystack@, channel as int),
            cut == cut_upto(config.patterns(), haystack@, channel as int),
            is_boundary(haystack@, cut as int),
            forall|c: int|
                0 <= c < channel ==> spans_fit(
                    regex_find_all(#[trigger] config.patterns()[c], haystack@),
                    haystack@,
                ),
        decreases config.matchers.len() - channel,
    {
        let far = scan_channel(&config.matchers[channel], channel, haystack, &mut captures);
        if far > cut {
            cut = far;
        }
        channel = channel + 1;
    }
    proof {
        lemma_tokens_name_channels(config.patterns(), haystack@, channel as int);
        assert forall|i: int| 0 <= i < captures@.len() implies (#[trigger] captures@[i]).channel
            < config.patterns().len() by {
            assert(tokens_of(captures@)[i].channel == captures@[i].channel);
        }
    }
    Scan { captures, cut }
}

/// A capture and what came of the attempt to read its text as a number:
/// the bits of the double it stands for, or nothing when the text is no
/// number.
pub struct Parsed {
    /// What the capture holds.
    pub token: Token,
    /// The number read, if the text was one.
    pub value: Option<u64>,
}

/// The value that is given for the capture at `at`. For a capture behind
/// the last value, none is given.
pub open spec fn value_at(values: Seq<Option<u64>>, at: int) -> Option<u64> {
    if 0 <= at < values.len() {
        values[at]
    } else {
        None
    }
}

/// The captures, each with the value given for it.
pub open spec fn paired(tokens: Seq<Token>, values: Seq<Option<u64>>) -> Seq<Parsed> {
    Seq::new(tokens.len(), |at: int| Parsed { token: tokens[at], value: value_at(values, at) })
}

/// The reading that a parsed capture becomes, if it was a number: the
/// number, on the channel of the capture.
pub open spec fn reading_of(parsed: Parsed, stamp: i64) -> Option<Data> {
    match parsed.value {
        Some(bits) => Some(Data { stamp, channel: parsed.token.channel as usize, data: bits }),
        None => None,
    }
}

/// The readings that parsed captures become: one for every capture that
/// was a number, in the order of the captures, all with the same stamp. A
/// capture that was no number is passed over.
pub open spec fn batch_of(parsed: Seq<Parsed>, stamp: i64) -> Seq<Data> {
    parsed.filter_map(|p: Parsed| reading_of(p, stamp))
}

/// The batch of one scan, given its captures and the value read from each:
/// see [`batch_of`].
pub open spec fn accepted(tokens: Seq<Token>, values: Seq<Option<u64>>, stamp: i64) -> Seq<Data> {
    batch_of(paired(tokens, values), stamp)
}

/// Makes the batch of one scan. `values[i]` is what came of reading the
/// text of `captures[i]` as a number. Each reading has the channel of its
/// capture; a capture that was no number yields none, and neither does one
/// for which no value is given. Values behind the last capture are not
/// looked at.
pub fn readings(captures: &Vec<Capture>, values: &Vec<Option<u64>>, stamp: i64) -> (batch: Vec<
    Data,
>)
    ensures
        batch@ == accepted(tokens_of(captures@), values@, stamp),
{
    let ghost parsed = paired(tokens_of(captures@), values@);
    let mut batch: Vec<Data> = Vec::new();
    let mut at: usize = 0;
    proof {
        assert(batch@ =~= batch_of(parsed.take(0), stamp));
    }
    while at < captures.len()
        invariant
            at <= captures.len(),
            parsed == paired(tokens_of(captures@), values@),
            batch@ == batch_of(parsed.take(at as int), stamp),
        decreases captures.len() - at,
    {
        let value: Option<u64> = if at < values.len() {
            values[at]
        } else {
            None
        };
        proof {
            parsed.lemma_filter_map_take_succ(|p: Parsed| reading_of(p, stamp), at as int);
            assert(parsed[at as int].token == captures@[at as int]@);
            assert(parsed[at as int].value == value);
        }
        match value {
            Some(bits) => {
                batch.push(Data { stamp, channel: captures[at].channel, data: bits });
            },
            None => {},
        }
        proof {
            assert(batch@ =~= batch_of(parsed.take(at + 1), stamp));
        }
        at = at + 1;
    }
    proof {
        assert(parsed.take(at as int) =~= parsed);
    }
    batch
}

/// One row of the record of readings.
#[derive(Copy, Clone, Debug, PartialEq, Eq, Structural)]
pub struct Row {
    /// Milliseconds between the start of the extraction and the reading.
    pub elapsed: i128,
    /// The reading, as the bits of an IEEE 754 double.
    pub data: u64,
    /// Channel of the reading.
    pub channel: usize,
}

/// The row that records `reading` for an extraction started at
/// `start_time`.
pub open spec fn row_of(reading: Data, start_time: i64) -> Row {
    Row {
        elapsed: (reading.stamp - start_time) as i128,
        data: reading.data,
        channel: reading.channel,
    }
}

/// The rows that record a batch: one per reading, in order.
pub fn sink_rows(batch: &Vec<Data>, start_time: i64) -> (rows: Vec<Row>)
    ensures
        rows@ == batch@.map_values(|d: Data| row_of(d, start_time)),
{
    let mut rows: Vec<Row> = Vec::new();
    let mut at: usize = 0;
    while at < batch.len()
        invariant
            at <= batch.len(),
            rows@ == batch@.take(at as int).map_values(|d: Data| row_of(d, start_time)),
        decreases batch.len() - at,
    {
        let reading = batch[at];
        let elapsed: i128 = reading.stamp as i128 - start_time as i128;
        rows.push(Row { elapsed, data: reading.data, channel: reading.channel });
        proof {
            assert(rows@ =~= batch@.take(at + 1).map_values(|d: Data| row_of(d, start_time)));
        }
        at = at + 1;
    }
    proof {
        assert(batch@.take(at as int) =~= batch@);
    }
    rows
}

/// The names of the three fields of a [`Row`], as the record's first row.
pub fn sink_header() -> (names: [&'static str; 3])
    ensures
        names[0]@ == "Timestamp"@,
        names[1]@ == "Data"@,
        names[2]@ == "Channel"@,
{
    ["Timestamp", "Data", "Channel"]
}

/// Where an extraction stands.
pub enum Phase {
    /// Nothing has been read yet.
    Starting,
    /// Chunks are being read. `buffer` is the text received and not yet let
    /// go; `start_time` is when the extraction started, in milliseconds
    /// since the Unix epoch.
    Working { buffer: String, start_time: i64 },
    /// The input has ended.
    Closed,
}

/// What a [`Phase`] holds.
pub enum PhaseView {
    Starting,
    Working { buffer: Seq<char>, start_time: i64 },
    Closed,
}

impl View for Phase {
    type V = PhaseView;

    open spec fn view(&self) -> PhaseView {
        match self {
            Phase::Starting => PhaseView::Starting,
            Phase::Working { buffer, start_time } => PhaseView::Working {
                buffer: buffer@,
                start_time: *start_time,
            },
            Phase::Closed => PhaseView::Closed,
        }
    }
}

impl Phase {
    /// Whether a chunk is to be read before the next activation. One is
    /// while working; at the start and once closed nothing is read.
    pub fn reads(&self) -> (due: bool)
        ensures
            due == (self@ is Working),
    {
        match self {
            Phase::Working { .. } => true,
            _ => false,
        }
    }
}

/// What one activation of the extractor asks of its caller.
pub enum Outcome {
    /// The extraction has started. With `with_sink`, the record is to be
    /// opened and given its header row. Nothing is passed on.
    Started { with_sink: bool },
    /// A chunk was scanned. The captures are to be read as numbers, and the
    /// readings passed on with `stamp` and recorded relative to
    /// `start_time`.
    Scanned { captures: Vec<Capture>, stamp: i64, start_time: i64 },
    /// The input has ended, which is to be passed on. With `flush`, the
    /// record is to be flushed and closed.
    Closed { flush: bool },
}

/// What an [`Outcome`] holds.
pub enum OutcomeView {
    Started { with_sink: bool },
    Scanned { tokens: Seq<Token>, stamp: i64, start_time: i64 },
    Closed { flush: bool },
}

impl View for Outcome {
    type V = OutcomeView;

    open spec fn view(&self) -> OutcomeView {
        match self {
            Outcome::Started { with_sink } => OutcomeView::Started { with_sink: *with_sink },
            Outcome::Scanned { captures, stamp, start_time } => OutcomeView::Scanned {
                tokens: tokens_of(captures@),
                stamp: *stamp,
                start_time: *start_time,
            },
            Outcome::Closed { flush } => OutcomeView::Closed { flush: *flush },
        }
    }
}

/// The text that is scanned when `chunk` arrives while `buffer` is held.
pub open spec fn haystack_of(buffer: Seq<char>, chunk: Seq<u8>) -> Seq<char> {
    buffer + decoded_text(chunk)
}

/// The text that is kept of `haystack` once it has been scanned: what lies
/// at and behind the furthest end of any match, and all of it when nothing
/// matched.
pub open spec fn kept(patterns: Seq<Seq<char>>, haystack: Seq<char>) -> Seq<char> {
    tail(haystack, cut(patterns, haystack))
}

/// One activation at time `now`. `chunk` is what the read that preceded it
/// brought, `None` when the read failed; it is looked at only while
/// working.
///
/// Starting always leads to working, with an empty buffer. While working, a
/// failed read closes the extraction, and a chunk is decoded, added to the
/// buffer and scanned. Once closed, every activation says so again.
pub open spec fn step(
    patterns: Seq<Seq<char>>,
    with_sink: bool,
    phase: PhaseView,
    chunk: Option<Seq<u8>>,
    now: i64,
) -> (PhaseView, OutcomeView) {
    match phase {
        PhaseView::Starting => (
            PhaseView::Working { buffer: Seq::empty(), start_time: now },
            OutcomeView::Started { with_sink },
        ),
        PhaseView::Working { buffer, start_time } => match chunk {
            None => (PhaseView::Closed, OutcomeView::Closed { flush: true }),
            Some(bytes) => {
                let haystack = haystack_of(buffer, bytes);
                (
                    PhaseView::Working { buffer: kept(patterns, haystack), start_time },
                    OutcomeView::Scanned { tokens: tokens(patterns, haystack), stamp: now, start_time },
                )
            },
        },
        PhaseView::Closed => (PhaseView::Closed, OutcomeView::Closed { flush: false }),
    }
}

/// What a chunk that may be missing holds.
pub open spec fn bytes_read(chunk: Option<&[u8]>) -> Option<Seq<u8>> {
    match chunk {
        Some(bytes) => Some(bytes@),
        None => None,
    }
}

/// Calls `chrono::Utc::now` and takes the time in milliseconds since the
/// Unix epoch. Nothing is claimed of a clock's answer. On a machine whose
/// clock stands before 1970 the call panics.
#[verifier::external_body]
pub(crate) fn now_millis() -> i64 {
    chrono::Utc::now().timestamp_millis()
}

/// One activation of the extractor at the time `now`: see [`step`].
pub fn extract_channels_at(phase: Phase, config: &Config, chunk: Option<&[u8]>, now: i64) -> (r: (
    Phase,
    Outcome,
))
    ensures
        (r.0@, r.1@) == step(config.patterns(), config.csv is Some, phase@, bytes_read(chunk), now),
{
    match phase {
        Phase::Starting => (
            Phase::Working { buffer: String::new(), start_time: now },
            Outcome::Started { with_sink: config.csv.is_some() },
        ),
        Phase::Working { buffer, start_time } => match chunk {
            None => (Phase::Closed, Outcome::Closed { flush: true }),
            Some(bytes) => {
                let mut buffer = buffer;
                let piece = decode_lossy(bytes);
                buffer.append(piece.as_str());
                let found = scan(config, buffer.as_str());
                let rest = if found.cut == 0 {
                    proof {
                        lemma_tail_from_start(buffer@);
                    }
                    buffer
                } else {
                    tail_of(buffer.as_str(), found.cut)
                };
                (
                    Phase::Working { buffer: rest, start_time },
                    Outcome::Scanned { captures: found.captures, stamp: now, start_time },
                )
            },
        },
        Phase::Closed => (Phase::Closed, Outcome::Closed { flush: false }),
    }
}

/// One activation of the extractor, at whatever time the clock gives.
pub fn extract_channels(phase: Phase, config: &Config, chunk: Option<&[u8]>) -> (r: (
    Phase,
    Outcome,
))
    ensures
        exists|now: i64|
            (r.0@, r.1@) == #[trigger] step(
                config.patterns(),
                config.csv is Some,
                phase@,
                bytes_read(chunk),
                now,
            ),
{
    let now = now_millis();
    extract_channels_at(phase, config, chunk, now)
}

} // verus!
