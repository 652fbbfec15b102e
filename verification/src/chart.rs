//! The windowed series store: per channel a queue of readings, newest
//! first, trimmed to a window of time, with the bounds of what is shown.

use crate::extractor::Data;
use crate::value::{greater, greater_than, less, less_than, ONE_BITS, ZERO_BITS};
use std::collections::VecDeque;
use vstd::prelude::*;

verus! {

/// The window the store starts with, in milliseconds.
pub const DEFAULT_WINDOW_MS: u64 = 5000;

/// What a [`SignalChart`] holds.
pub struct ChartView {
    /// The queue of each channel, newest reading first.
    pub channels: Seq<Seq<Data>>,
    /// For each channel, whether it has ever been given a reading.
    pub fed: Seq<bool>,
    /// Length of the window, in milliseconds.
    pub window: u64,
    /// When charting started, in milliseconds since the Unix epoch.
    pub start_time: i64,
    /// The latest stamp of any reading ever given, 0 before the first.
    pub latest: i64,
    /// Upper bound of the values shown, as the bits of a double.
    pub highest: u64,
    /// Lower bound of the values shown, as the bits of a double.
    pub lowest: u64,
}

/// How long before `now` the reading was taken, in milliseconds.
pub open spec fn age(now: i64, reading: Data) -> int {
    now - reading.stamp
}

/// A queue after eviction at time `now`: readings are taken off its back
/// for as long as the one at the back is older than the window. A reading
/// whose age is exactly the window stays.
pub open spec fn evicted(queue: Seq<Data>, now: i64, window: u64) -> Seq<Data>
    decreases queue.len(),
{
    if queue.len() > 0 && age(now, queue.last()) > window {
        evicted(queue.drop_last(), now, window)
    } else {
        queue
    }
}

/// The later of two stamps.
pub open spec fn later(a: i64, b: i64) -> i64 {
    if a > b {
        a
    } else {
        b
    }
}

/// The upper bound once `value` has been seen: `value` where it is greater,
/// the bound as it was otherwise.
pub open spec fn raised(bound: u64, value: u64) -> u64 {
    if greater(value, bound) {
        value
    } else {
        bound
    }
}

/// The lower bound once `value` has been seen: `value` where it is less,
/// the bound as it was otherwise.
pub open spec fn lowered(bound: u64, value: u64) -> u64 {
    if less(value, bound) {
        value
    } else {
        bound
    }
}

/// The readings of `queue` that are newer than `oldest`, in order.
pub open spec fn newer_than(queue: Seq<Data>, oldest: int) -> Seq<Data> {
    queue.filter(|d: Data| d.stamp > oldest)
}

impl ChartView {
    /// There is one flag per channel.
    pub open spec fn valid(self) -> bool {
        self.fed.len() == self.channels.len()
    }

    /// The store of `channels` empty channels.
    pub open spec fn fresh(channels: nat, start_time: i64) -> ChartView {
        ChartView {
            channels: Seq::new(channels, |i: int| Seq::<Data>::empty()),
            fed: Seq::new(channels, |i: int| false),
            window: DEFAULT_WINDOW_MS,
            start_time,
            latest: 0,
            highest: ONE_BITS,
            lowest: ZERO_BITS,
        }
    }

    /// The store once `value` has been pushed.
    ///
    /// The reading goes to the front of its channel's queue, which is then
    /// trimmed at the reading's own stamp. The first reading that a channel
    /// is ever given sets both bounds to its value; every later one can
    /// only widen them.
    pub open spec fn pushed(self, value: Data) -> ChartView {
        let channel = value.channel as int;
        ChartView {
            channels: self.channels.update(
                channel,
                evicted(seq![value] + self.channels[channel], value.stamp, self.window),
            ),
            fed: self.fed.update(channel, true),
            latest: later(value.stamp, self.latest),
            highest: if self.fed[channel] {
                raised(self.highest, value.data)
            } else {
                value.data
            },
            lowest: if self.fed[channel] {
                lowered(self.lowest, value.data)
            } else {
                value.data
            },
            ..self
        }
    }

    /// For each channel, the readings newer than the latest stamp less
    /// `window_length`.
    pub open spec fn visible(self, window_length: u64) -> Seq<Seq<Data>> {
        self.channels.map_values(|queue: Seq<Data>| newer_than(queue, self.latest - window_length))
    }
}

/// The store once the first `n` readings of `batch` have been pushed, one
/// after the other.
pub open spec fn pushed_upto(chart: ChartView, batch: Seq<Data>, n: int) -> ChartView
    decreases n,
{
    if n <= 0 {
        chart
    } else {
        pushed_upto(chart, batch, n - 1).pushed(batch[n - 1])
    }
}

/// The store once every reading of `batch` has been pushed, in order.
pub open spec fn pushed_all(chart: ChartView, batch: Seq<Data>) -> ChartView {
    pushed_upto(chart, batch, batch.len() as int)
}

/// Every reading of `batch` names one of `channels` channels.
pub open spec fn within(batch: Seq<Data>, channels: nat) -> bool {
    forall|i: int| 0 <= i < batch.len() ==> (#[trigger] batch[i]).channel < channels
}

/// Pushing keeps the number of channels.
pub proof fn lemma_pushed_upto_channels(chart: ChartView, batch: Seq<Data>, n: int)
    requires
        0 <= n <= batch.len(),
        within(batch, chart.channels.len()),
    ensures
        pushed_upto(chart, batch, n).channels.len() == chart.channels.len(),
    decreases n,
{
    if n > 0 {
        lemma_pushed_upto_channels(chart, batch, n - 1);
    }
}


/// No reading of `queue` is newer than one in front of it.
pub open spec fn newest_first(queue: Seq<Data>) -> bool {
    forall|i: int, j: int|
        0 <= i <= j < queue.len() ==> (#[trigger] queue[i]).stamp >= (#[trigger] queue[j]).stamp
}

/// `value` is no older than the newest reading of `queue`.
pub open spec fn follows(queue: Seq<Data>, value: Data) -> bool {
    queue.len() > 0 ==> value.stamp >= queue[0].stamp
}

/// The bounds `lowest` and `highest` are those of `before` or wider.
pub open spec fn widened(before: ChartView, after: ChartView) -> bool {
    &&& after.lowest == before.lowest || less(after.lowest, before.lowest)
    &&& after.highest == before.highest || greater(after.highest, before.highest)
}

/// Eviction takes readings off the back only, and each one it takes is
/// older than the window.
pub proof fn lemma_evicted_were_stale(queue: Seq<Data>, now: i64, window: u64)
    ensures
        evicted(queue, now, window).len() <= queue.len(),
        evicted(queue, now, window) == queue.take(evicted(queue, now, window).len() as int),
        forall|i: int|
            evicted(queue, now, window).len() <= i < queue.len() ==> age(now, #[trigger] queue[i])
                > window,
    decreases queue.len(),
{
    if queue.len() > 0 && age(now, queue.last()) > window {
        let shorter = queue.drop_last();
        lemma_evicted_were_stale(shorter, now, window);
        let kept = evicted(shorter, now, window);
        assert(shorter.take(kept.len() as int) =~= queue.take(kept.len() as int));
        assert forall|i: int| kept.len() <= i < queue.len() implies age(now, #[trigger] queue[i])
            > window by {
            if i < shorter.len() {
                assert(queue[i] == shorter[i]);
            }
        }
    } else {
        assert(queue.take(queue.len() as int) =~= queue);
    }
}

/// Eviction boundary. In a queue that is newest first, what eviction keeps
/// is within the window, its boundary included, and it keeps every such
/// reading: the queue is left with exactly its readings that are no older
/// than the window.
pub proof fn lemma_eviction_boundary(queue: Seq<Data>, now: i64, window: u64)
    requires
        newest_first(queue),
    ensures
        newest_first(evicted(queue, now, window)),
        forall|i: int|
            0 <= i < evicted(queue, now, window).len() ==> age(
                now,
                #[trigger] evicted(queue, now, window)[i],
            ) <= window,
        evicted(queue, now, window) == queue.filter(|d: Data| age(now, d) <= window),
    decreases queue.len(),
{
    reveal(Seq::filter);
    let fresh = |d: Data| age(now, d) <= window;
    if queue.len() > 0 && age(now, queue.last()) > window {
        let shorter = queue.drop_last();
        assert forall|i: int, j: int| 0 <= i <= j < shorter.len() implies (#[trigger] shorter[i]).stamp
            >= (#[trigger] shorter[j]).stamp by {
            assert(queue[i].stamp >= queue[j].stamp);
        }
        lemma_eviction_boundary(shorter, now, window);
    } else if queue.len() > 0 {
        assert forall|i: int| 0 <= i < queue.len() implies fresh(#[trigger] queue[i]) by {
            assert(queue[i].stamp >= queue[queue.len() - 1].stamp);
        }
        lemma_filter_keeps_all(queue, now, window);
    }
}

/// A queue whose readings are all within the window is its own filter.
proof fn lemma_filter_keeps_all(queue: Seq<Data>, now: i64, window: u64)
    requires
        forall|i: int| 0 <= i < queue.len() ==> age(now, #[trigger] queue[i]) <= window,
    ensures
        queue.filter(|d: Data| age(now, d) <= window) == queue,
    decreases queue.len(),
{
    reveal(Seq::filter);
    if queue.len() > 0 {
        let shorter = queue.drop_last();
        assert forall|i: int| 0 <= i < shorter.len() implies age(now, #[trigger] shorter[i])
            <= window by {
            assert(shorter[i] == queue[i]);
        }
        lemma_filter_keeps_all(shorter, now, window);
        assert(shorter.push(queue.last()) =~= queue);
    }
}

/// Window eviction. When a reading is pushed that is no older than the
/// newest of its channel, and the channel's queue was newest first, the
/// queue is newest first again, the reading is at its front, and every
/// reading in it is at most a window older than the one pushed; what left
/// the queue was older than that.
pub proof fn lemma_push_keeps_window(chart: ChartView, value: Data)
    requires
        value.channel < chart.channels.len(),
        newest_first(chart.channels[value.channel as int]),
        follows(chart.channels[value.channel as int], value),
    ensures
        ({
            let before = seq![value] + chart.channels[value.channel as int];
            let after = chart.pushed(value).channels[value.channel as int];
            &&& newest_first(after)
            &&& after.len() > 0 && after[0] == value
            &&& forall|i: int| 0 <= i < after.len() ==> 0 <= age(value.stamp, #[trigger] after[i]) <= chart.window
            &&& after == before.filter(|d: Data| age(value.stamp, d) <= chart.window)
            &&& after == before.take(after.len() as int)
            &&& forall|i: int| after.len() <= i < before.len() ==> age(value.stamp, #[trigger] before[i]) > chart.window
        }),
{
    let queue = chart.channels[value.channel as int];
    let before = seq![value] + queue;
    assert forall|i: int, j: int| 0 <= i <= j < before.len() implies (#[trigger] before[i]).stamp
        >= (#[trigger] before[j]).stamp by {
        if i > 0 {
            assert(queue[i - 1].stamp >= queue[j - 1].stamp);
        } else if j > 0 {
            assert(queue[0].stamp >= queue[j - 1].stamp);
        }
    }
    lemma_eviction_boundary(before, value.stamp, chart.window);
    lemma_evicted_were_stale(before, value.stamp, chart.window);
    let after = evicted(before, value.stamp, chart.window);
    if after.len() == 0 {
        assert(age(value.stamp, before[0]) > chart.window);
    }
    assert(after[0] == before.take(after.len() as int)[0]);
    assert forall|i: int| 0 <= i < after.len() implies 0 <= age(value.stamp, #[trigger] after[i]) by {
        assert(after[i] == before.take(after.len() as int)[i]);
        assert(before[0].stamp >= before[i].stamp);
    }
}

/// The first `n` readings of `pushes`, newest first.
pub open spec fn newest_first_of(pushes: Seq<Data>, n: int) -> Seq<Data> {
    Seq::new(n as nat, |i: int| pushes[n - 1 - i])
}

/// The readings of `queue` that are at most `window` older than `now`.
pub open spec fn within_window(queue: Seq<Data>, now: i64, window: u64) -> Seq<Data> {
    queue.filter(|d: Data| age(now, d) <= window)
}

/// All of `pushes` go to `channel`, and none is older than the one before
/// it.
pub open spec fn one_channel_in_order(pushes: Seq<Data>, channel: int) -> bool {
    &&& forall|i: int| 0 <= i < pushes.len() ==> (#[trigger] pushes[i]).channel == channel
    &&& forall|i: int, j: int|
        0 <= i <= j < pushes.len() ==> (#[trigger] pushes[i]).stamp <= (#[trigger] pushes[j]).stamp
}

/// Filtering for a later moment what was filtered for an earlier one gives
/// what filtering for the later moment alone gives, where nothing is newer
/// than the earlier moment.
proof fn lemma_window_moves_on(queue: Seq<Data>, earlier: i64, now: i64, window: u64)
    requires
        earlier <= now,
    ensures
        within_window(within_window(queue, earlier, window), now, window) == within_window(
            queue,
            now,
            window,
        ),
    decreases queue.len(),
{
    reveal(Seq::filter);
    if queue.len() > 0 {
        let shorter = queue.drop_last();
        lemma_window_moves_on(shorter, earlier, now, window);
        if age(earlier, queue.last()) <= window {
            within_window(shorter, earlier, window).lemma_filter_push(
                queue.last(),
                |d: Data| age(now, d) <= window,
            );
        }
    }
}

/// Window eviction over a run of pushes. When a channel that held nothing
/// is given readings in the order of their stamps, with the window left as
/// it is, then after each push it holds exactly the readings given so far
/// that are at most a window older than the last one, newest first. A
/// reading exactly a window old is among them.
pub proof fn lemma_window_after_pushes(chart: ChartView, pushes: Seq<Data>, channel: int, n: int)
    requires
        0 <= channel < chart.channels.len(),
        chart.channels[channel].len() == 0,
        one_channel_in_order(pushes, channel),
        0 < n <= pushes.len(),
    ensures
        pushed_upto(chart, pushes, n).window == chart.window,
        pushed_upto(chart, pushes, n).channels.len() == chart.channels.len(),
        pushed_upto(chart, pushes, n).channels[channel] == within_window(
            newest_first_of(pushes, n),
            pushes[n - 1].stamp,
            chart.window,
        ),
        forall|i: int|
            0 <= i < pushed_upto(chart, pushes, n).channels[channel].len() ==> 0 <= age(
                pushes[n - 1].stamp,
                #[trigger] pushed_upto(chart, pushes, n).channels[channel][i],
            ) <= chart.window,
    decreases n,
{
    let value = pushes[n - 1];
    let before = pushed_upto(chart, pushes, n - 1);
    let all = newest_first_of(pushes, n);
    let older = newest_first_of(pushes, n - 1);
    assert(value.channel == channel);
    assert(all =~= seq![value] + older);
    if n == 1 {
        assert(before == chart);
        assert(older =~= chart.channels[channel]);
        lemma_push_keeps_window(before, value);
    } else {
        lemma_window_after_pushes(chart, pushes, channel, n - 1);
        let earlier = pushes[n - 2].stamp;
        let queue = before.channels[channel];
        assert(earlier <= value.stamp);
        assert(queue.len() > 0 ==> 0 <= age(earlier, queue[0]));
        assert forall|i: int, j: int| 0 <= i <= j < older.len() implies (#[trigger] older[i]).stamp
            >= (#[trigger] older[j]).stamp by {
            assert(pushes[n - 2 - j].stamp <= pushes[n - 2 - i].stamp);
        }
        lemma_eviction_boundary(older, earlier, chart.window);
        lemma_push_keeps_window(before, value);
        lemma_window_moves_on(older, earlier, value.stamp, chart.window);
        Seq::filter_distributes_over_add(
            seq![value],
            queue,
            |d: Data| age(value.stamp, d) <= chart.window,
        );
        Seq::filter_distributes_over_add(
            seq![value],
            older,
            |d: Data| age(value.stamp, d) <= chart.window,
        );
    }
}

/// Display bounds only widen. A reading pushed on a channel that has been
/// given one before leaves each bound where it was or moves it outwards:
/// the lower bound never rises and the upper bound never falls, whatever is
/// evicted.
pub proof fn lemma_bounds_only_widen(chart: ChartView, value: Data)
    requires
        chart.valid(),
        value.channel < chart.channels.len(),
        chart.fed[value.channel as int],
    ensures
        widened(chart, chart.pushed(value)),
        !greater(chart.pushed(value).lowest, chart.lowest),
        !less(chart.pushed(value).highest, chart.highest),
{
}

/// Bounds that have widened twice have widened.
pub proof fn lemma_widened_is_transitive(a: ChartView, b: ChartView, c: ChartView)
    requires
        widened(a, b),
        widened(b, c),
    ensures
        widened(a, c),
{
}

/// Display bounds only widen, over any number of pushes. Once every channel
/// has been given a reading, no batch of readings narrows the bounds; nor
/// does a change of the window, which leaves them as they are.
pub proof fn lemma_bounds_widen_over_pushes(chart: ChartView, batch: Seq<Data>, n: int)
    requires
        chart.valid(),
        0 <= n <= batch.len(),
        within(batch, chart.channels.len()),
        forall|c: int| 0 <= c < chart.fed.len() ==> chart.fed[c],
    ensures
        widened(chart, pushed_upto(chart, batch, n)),
        pushed_upto(chart, batch, n).valid(),
        pushed_upto(chart, batch, n).channels.len() == chart.channels.len(),
        forall|c: int| 0 <= c < chart.fed.len() ==> pushed_upto(chart, batch, n).fed[c],
    decreases n,
{
    if n > 0 {
        lemma_bounds_widen_over_pushes(chart, batch, n - 1);
        let before = pushed_upto(chart, batch, n - 1);
        lemma_bounds_only_widen(before, batch[n - 1]);
        lemma_widened_is_transitive(chart, before, before.pushed(batch[n - 1]));
    }
}

/// One line of a plot.
pub struct Series {
    /// Channel the line shows.
    pub channel: usize,
    /// The points of the line, newest first: milliseconds since the start
    /// of charting, and the value as the bits of a double.
    pub points: Vec<(i128, u64)>,
}

/// What a [`Series`] holds.
pub struct SeriesView {
    pub channel: usize,
    pub points: Seq<(i128, u64)>,
}

impl View for Series {
    type V = SeriesView;

    open spec fn view(&self) -> SeriesView {
        SeriesView { channel: self.channel, points: self.points@ }
    }
}

/// What is to be drawn: the two axes and one line per channel that holds
/// anything.
pub struct Plot {
    /// Start of the time axis, in milliseconds since the start of charting.
    pub from_ms: i128,
    /// End of the time axis, in milliseconds since the start of charting.
    pub to_ms: i128,
    /// Start of the value axis, as the bits of a double.
    pub lowest: u64,
    /// End of the value axis, as the bits of a double.
    pub highest: u64,
    /// The lines, in the order of their channels.
    pub series: Vec<Series>,
}

/// What a list of series holds.
pub open spec fn lines_of(series: Seq<Series>) -> Seq<SeriesView> {
    series.map_values(|line: Series| line@)
}

/// The point that shows `reading` on a time axis that starts at
/// `start_time`.
pub open spec fn point_of(reading: Data, start_time: i64) -> (i128, u64) {
    ((reading.stamp - start_time) as i128, reading.data)
}

impl ChartView {
    /// The line of one channel: its readings within the window, as points.
    pub open spec fn line(self, channel: int) -> SeriesView {
        SeriesView {
            channel: channel as usize,
            points: newer_than(self.channels[channel], self.latest - self.window).map_values(
                |d: Data| point_of(d, self.start_time),
            ),
        }
    }

    /// The lines of the first `n` channels. A channel that holds nothing
    /// has no line.
    pub open spec fn lines_upto(self, n: int) -> Seq<SeriesView>
        decreases n,
    {
        if n <= 0 {
            Seq::empty()
        } else if self.channels[n - 1].len() > 0 {
            self.lines_upto(n - 1).push(self.line(n - 1))
        } else {
            self.lines_upto(n - 1)
        }
    }

    /// The lines of all channels.
    pub open spec fn lines(self) -> Seq<SeriesView> {
        self.lines_upto(self.channels.len() as int)
    }
}

/// The store. Nothing in it is changed once it has been put in.
pub struct SignalChart {
    /// Queue of each channel. Channel numbers are indices.
    data_points: Vec<VecDeque<Data>>,
    /// For each channel, whether it has ever been given a reading.
    fed: Vec<bool>,
    /// Size of the time domain shown.
    plot_ms: u64,
    /// Start of charting, in milliseconds since the Unix epoch.
    start_time_ms: i64,
    latest_reading: i64,
    highest_reading: u64,
    lowest_reading: u64,
}

/// The contents of a list of queues.
pub open spec fn queues_of(queues: Seq<VecDeque<Data>>) -> Seq<Seq<Data>> {
    queues.map_values(|queue: VecDeque<Data>| queue@)
}

impl View for SignalChart {
    type V = ChartView;

    closed spec fn view(&self) -> ChartView {
        ChartView {
            channels: queues_of(self.data_points@),
            fed: self.fed@,
            window: self.plot_ms,
            start_time: self.start_time_ms,
            latest: self.latest_reading,
            highest: self.highest_reading,
            lowest: self.lowest_reading,
        }
    }
}

/// What the store shows of itself at one moment.
pub struct Snapshot {
    /// For each channel, the readings within the window, newest first.
    pub series: Vec<Vec<Data>>,
    /// Lower bound of the values, as the bits of a double.
    pub display_min: u64,
    /// Upper bound of the values, as the bits of a double.
    pub display_max: u64,
}

/// The contents of a list of lists.
pub open spec fn lists_of(lists: Seq<Vec<Data>>) -> Seq<Seq<Data>> {
    lists.map_values(|list: Vec<Data>| list@)
}

impl SignalChart {
    #[verifier::type_invariant]
    spec fn well_formed(&self) -> bool {
        self.fed@.len() == self.data_points@.len()
    }

    /// An empty store of `num_channels` channels, with the default window
    /// and the bounds 0.0 and 1.0.
    pub fn new(num_channels: usize, start_time_ms: i64) -> (chart: SignalChart)
        ensures
            chart@ == ChartView::fresh(num_channels as nat, start_time_ms),
    {
        let mut data_points: Vec<VecDeque<Data>> = Vec::new();
        let mut fed: Vec<bool> = Vec::new();
        let mut made: usize = 0;
        while made < num_channels
            invariant
                made <= num_channels,
                data_points@.len() == made,
                fed@.len() == made,
                forall|i: int| 0 <= i < made ==> (#[trigger] data_points@[i])@ == Seq::<Data>::empty(),
                forall|i: int| 0 <= i < made ==> !(#[trigger] fed@[i]),
            decreases num_channels - made,
        {
            data_points.push(VecDeque::new());
            fed.push(false);
            made = made + 1;
        }
        let chart = SignalChart {
            data_points,
            fed,
            plot_ms: DEFAULT_WINDOW_MS,
            start_time_ms,
            latest_reading: 0,
            highest_reading: ONE_BITS,
            lowest_reading: ZERO_BITS,
        };
        proof {
            let fresh = ChartView::fresh(num_channels as nat, start_time_ms);
            assert(chart@.channels =~= fresh.channels);
            assert(chart@.fed =~= fresh.fed);
        }
        chart
    }

    /// The number of channels.
    pub fn channels(&self) -> (n: usize)
        ensures
            n == self@.channels.len(),
            self@.valid(),
    {
        proof {
            use_type_invariant(self);
        }
        self.data_points.len()
    }

    /// Sets the length of the window. Readings already held stay until the
    /// next push on their channel.
    pub fn set_time_domain(&mut self, time_ms: u64)
        ensures
            final(self)@ == (ChartView { window: time_ms, ..old(self)@ }),
    {
        proof {
            use_type_invariant(&*self);
        }
        self.plot_ms = time_ms;
    }

    /// The length of the window.
    pub fn get_time_domain(&self) -> (time_ms: u64)
        ensures
            time_ms == self@.window,
    {
        self.plot_ms
    }

    /// Pushes a reading into the queue of its channel, then trims what is
    /// older than the window.
    pub fn push_data(&mut self, value: Data)
        requires
            value.channel < old(self)@.channels.len(),
        ensures
            final(self)@ == old(self)@.pushed(value),
    {
        proof {
            use_type_invariant(&*self);
        }
        let channel = value.channel;
        let ghost entered = seq![value] + old(self)@.channels[channel as int];
        self.data_points[channel].push_front(value);
        loop
            invariant
                channel == value.channel,
                channel < self.data_points@.len(),
                self.data_points@.len() == old(self).data_points@.len(),
                self.fed == old(self).fed,
                self.fed@.len() == self.data_points@.len(),
                self.plot_ms == old(self).plot_ms,
                self.start_time_ms == old(self).start_time_ms,
                self.latest_reading == old(self).latest_reading,
                self.highest_reading == old(self).highest_reading,
                self.lowest_reading == old(self).lowest_reading,
                forall|i: int|
                    0 <= i < self.data_points@.len() && i != channel ==> self.data_points@[i]
                        == old(self).data_points@[i],
                evicted(self.data_points@[channel as int]@, value.stamp, self.plot_ms) == evicted(
                    entered,
                    value.stamp,
                    self.plot_ms,
                ),
            ensures
                self.data_points@[channel as int]@ == evicted(entered, value.stamp, self.plot_ms),
            decreases self.data_points@[channel as int]@.len(),
        {
            let held: usize = self.data_points[channel].len();
            if held == 0 {
                break ;
            }
            let back: Data = self.data_points[channel][held - 1];
            if value.stamp as i128 - back.stamp as i128 > self.plot_ms as i128 {
                let ghost queue = self.data_points@[channel as int]@;
                self.data_points[channel].pop_back();
                proof {
                    assert(self.data_points@[channel as int]@ =~= queue.drop_last());
                }
            } else {
                break ;
            }
        }
        if value.stamp > self.latest_reading {
            self.latest_reading = value.stamp;
        }
        if self.fed[channel] {
            if greater_than(value.data, self.highest_reading) {
                self.highest_reading = value.data;
            }
            if less_than(value.data, self.lowest_reading) {
                self.lowest_reading = value.data;
            }
        } else {
            self.lowest_reading = value.data;
            self.highest_reading = value.data;
            self.fed[channel] = true;
        }
        proof {
            let wanted = old(self)@.pushed(value);
            assert(self@.channels =~= wanted.channels);
            assert(self@.fed =~= wanted.fed);
        }
    }

    /// The readings of one channel that are newer than `oldest`.
    fn newer_in(&self, channel: usize, oldest: i128) -> (found: Vec<Data>)
        requires
            channel < self@.channels.len(),
        ensures
            found@ == newer_than(self@.channels[channel as int], oldest as int),
    {
        let queue = &self.data_points[channel];
        let mut found: Vec<Data> = Vec::new();
        let mut at: usize = 0;
        proof {
            reveal(Seq::filter);
            assert(found@ =~= newer_than(queue@.take(0), oldest as int));
        }
        while at < queue.len()
            invariant
                at <= queue.len(),
                found@ == newer_than(queue@.take(at as int), oldest as int),
            decreases queue.len() - at,
        {
            let reading: Data = queue[at];
            proof {
                reveal(Seq::filter);
                let longer = queue@.take(at + 1);
                assert(longer.drop_last() =~= queue@.take(at as int));
                assert(longer.last() == reading);
            }
            if reading.stamp as i128 > oldest {
                found.push(reading);
            }
            at = at + 1;
        }
        proof {
            assert(queue@.take(at as int) =~= queue@);
        }
        found
    }

    /// What is within `window_length` of the latest reading, channel by
    /// channel, and the bounds of the values. The store is left as it is.
    pub fn snapshot_for_display(&self, window_length: u64) -> (shown: Snapshot)
        ensures
            lists_of(shown.series@) == self@.visible(window_length),
            shown.display_min == self@.lowest,
            shown.display_max == self@.highest,
    {
        let oldest: i128 = self.latest_reading as i128 - window_length as i128;
        let mut series: Vec<Vec<Data>> = Vec::new();
        let mut channel: usize = 0;
        while channel < self.data_points.len()
            invariant
                channel <= self.data_points@.len(),
                oldest == self@.latest - window_length,
                series@.len() == channel,
                lists_of(series@) == self@.visible(window_length).take(channel as int),
            decreases self.data_points@.len() - channel,
        {
            let found = self.newer_in(channel, oldest);
            let ghost before = series@;
            series.push(found);
            proof {
                let wanted = self@.visible(window_length);
                assert forall|i: int| 0 <= i <= channel implies lists_of(series@)[i] == wanted[i] by {
                    if i < channel {
                        assert(series@[i] == before[i]);
                        assert(lists_of(before)[i] == wanted.take(channel as int)[i]);
                    } else {
                        assert(series@[i] == found);
                        assert(self@.channels[i] == self.data_points@[i]@);
                    }
                }
                assert(lists_of(series@) =~= wanted.take(channel + 1));
            }
            channel = channel + 1;
        }
        proof {
            assert(self@.visible(window_length).take(channel as int) =~= self@.visible(
                window_length,
            ));
        }
        Snapshot { series, display_min: self.lowest_reading, display_max: self.highest_reading }
    }

    /// What is to be drawn now. The time axis spans the window that ends
    /// at the latest reading, the value axis the bounds; both are given
    /// relative to the start of charting.
    pub fn build_chart(&self) -> (plot: Plot)
        ensures
            plot.from_ms == self@.latest - self@.window - self@.start_time,
            plot.to_ms == self@.latest - self@.start_time,
            plot.lowest == self@.lowest,
            plot.highest == self@.highest,
            lines_of(plot.series@) == self@.lines(),
    {
        let oldest: i128 = self.latest_reading as i128 - self.plot_ms as i128;
        let mut series: Vec<Series> = Vec::new();
        let mut channel: usize = 0;
        while channel < self.data_points.len()
            invariant
                channel <= self.data_points@.len(),
                oldest == self@.latest - self@.window,
                lines_of(series@) == self@.lines_upto(channel as int),
            decreases self.data_points@.len() - channel,
        {
            if self.data_points[channel].len() > 0 {
                let shown = self.newer_in(channel, oldest);
                let mut points: Vec<(i128, u64)> = Vec::new();
                let mut at: usize = 0;
                while at < shown.len()
                    invariant
                        at <= shown.len(),
                        points@ == shown@.take(at as int).map_values(
                            |d: Data| point_of(d, self@.start_time),
                        ),
                    decreases shown.len() - at,
                {
                    let reading: Data = shown[at];
                    points.push((reading.stamp as i128 - self.start_time_ms as i128, reading.data));
                    proof {
                        assert(points@ =~= shown@.take(at + 1).map_values(
                            |d: Data| point_of(d, self@.start_time),
                        ));
                    }
                    at = at + 1;
                }
                proof {
                    assert(shown@.take(at as int) =~= shown@);
                }
                let ghost before = series@;
                series.push(Series { channel, points });
                proof {
                    assert(lines_of(series@) =~= lines_of(before).push(self@.line(channel as int)));
                }
            }
            channel = channel + 1;
        }
        Plot {
            from_ms: oldest - self.start_time_ms as i128,
            to_ms: self.latest_reading as i128 - self.start_time_ms as i128,
            lowest: self.lowest_reading,
            highest: self.highest_reading,
            series,
        }
    }
}

} // verus!
