//! What holds of the extractor over a whole stream of chunks.

use crate::extractor::{
    accepted, batch_of, captured, cut, cut_upto, haystack_of, kept, lemma_tokens_name_channels,
    paired, reach, reach_upto, reading_of, step, tagged, tokens, tokens_upto, value_at, Data,
    OutcomeView, Parsed, PhaseView, Token,
};
use crate::matcher::regex_find_all;
use crate::text::{
    decoded_text, is_boundary, lemma_boundary_in_tail, lemma_decode_concat, lemma_tail_from_start,
    lemma_tail_of_concat, tail,
};
use vstd::prelude::*;
use vstd::utf8::{decode_utf8, valid_utf8};

verus! {

/// The texts among `tokens` that belong to `channel`, in order.
pub open spec fn texts_on(channel: int, tokens: Seq<Token>) -> Seq<Seq<char>> {
    tokens.filter(|t: Token| t.channel == channel).map_values(|t: Token| t.text)
}

/// The tokens of one channel are all on that channel and on no other.
proof fn lemma_texts_on_tagged(channel: int, other: int, texts: Seq<Seq<char>>)
    ensures
        texts_on(channel, tagged(other, texts)) == if channel == other {
            texts
        } else {
            Seq::empty()
        },
    decreases texts.len(),
{
    let on = |t: Token| t.channel == channel;
    if texts.len() > 0 {
        let shorter = texts.drop_last();
        let last = Token { channel: other, text: texts.last() };
        lemma_texts_on_tagged(channel, other, shorter);
        assert(tagged(other, texts) =~= tagged(other, shorter).push(last));
        tagged(other, shorter).lemma_filter_push(last, on);
        if channel == other {
            assert(tagged(other, shorter).filter(on).push(last).map_values(|t: Token| t.text)
                =~= texts_on(channel, tagged(other, shorter)).push(last.text));
            assert(shorter.push(texts.last()) =~= texts);
        }
    } else {
        reveal(Seq::filter);
        assert(tagged(other, texts) =~= Seq::<Token>::empty());
        assert(texts_on(channel, tagged(other, texts)) =~= Seq::<Seq<char>>::empty());
    }
}

/// Among what the first `n` matchers capture, the texts on a channel are
/// what that channel's matcher captures.
proof fn lemma_scan_upto_by_channel(
    patterns: Seq<Seq<char>>,
    haystack: Seq<char>,
    channel: int,
    n: int,
)
    requires
        0 <= n <= patterns.len(),
        0 <= channel,
    ensures
        texts_on(channel, tokens_upto(patterns, haystack, n)) == if channel < n {
            captured(patterns[channel], haystack)
        } else {
            Seq::empty()
        },
    decreases n,
{
    if n > 0 {
        let before = tokens_upto(patterns, haystack, n - 1);
        let here = tagged(n - 1, captured(patterns[n - 1], haystack));
        lemma_scan_upto_by_channel(patterns, haystack, channel, n - 1);
        lemma_texts_on_tagged(channel, n - 1, captured(patterns[n - 1], haystack));
        Seq::filter_distributes_over_add(before, here, |t: Token| t.channel == channel);
        assert(texts_on(channel, before + here) =~= texts_on(channel, before) + texts_on(
            channel,
            here,
        ));
    } else {
        reveal(Seq::filter);
        assert(texts_on(channel, tokens_upto(patterns, haystack, n)) =~= Seq::<Seq<char>>::empty());
    }
}

/// A scan reads each channel by itself. Of what one scan captures, the
/// texts on a channel are exactly what that channel's matcher captures, in
/// the order of its matches: no channel's text changes, adds to or takes
/// from what another channel yields.
pub proof fn lemma_scan_by_channel(patterns: Seq<Seq<char>>, haystack: Seq<char>, channel: int)
    requires
        0 <= channel < patterns.len(),
    ensures
        texts_on(channel, tokens(patterns, haystack)) == captured(patterns[channel], haystack),
{
    lemma_scan_upto_by_channel(patterns, haystack, channel, patterns.len() as int);
}

/// No span among the first `n` ends behind their reach, and the reach is 0
/// or the end of one of them.
proof fn lemma_reach_upto(spans: Seq<(usize, usize)>, n: int)
    requires
        0 <= n <= spans.len(),
    ensures
        forall|i: int| 0 <= i < n ==> (#[trigger] spans[i]).1 <= reach_upto(spans, n),
        reach_upto(spans, n) == 0 || exists|i: int|
            0 <= i < n && (#[trigger] spans[i]).1 == reach_upto(spans, n),
    decreases n,
{
    if n > 0 {
        lemma_reach_upto(spans, n - 1);
        if spans[n - 1].1 > reach_upto(spans, n - 1) {
            assert(spans[n - 1].1 == reach_upto(spans, n));
        } else if reach_upto(spans, n - 1) != 0 {
            let i = choose|i: int|
                0 <= i < n - 1 && (#[trigger] spans[i]).1 == reach_upto(spans, n - 1);
            assert(spans[i].1 == reach_upto(spans, n));
        }
    }
}

/// `end` is where some match of one of the first `n` patterns ends.
pub open spec fn ends_a_match(
    patterns: Seq<Seq<char>>,
    haystack: Seq<char>,
    n: int,
    end: int,
) -> bool {
    exists|c: int, i: int|
        0 <= c < n && 0 <= i < regex_find_all(patterns[c], haystack).len() && (
        #[trigger] regex_find_all(patterns[c], haystack)[i]).1 == end
}

/// No match of the first `n` patterns ends behind their cut, and the cut is
/// 0 or the end of one of their matches.
proof fn lemma_cut_upto(patterns: Seq<Seq<char>>, haystack: Seq<char>, n: int)
    requires
        0 <= n <= patterns.len(),
    ensures
        forall|c: int, i: int|
            0 <= c < n && 0 <= i < regex_find_all(patterns[c], haystack).len() ==> (
            #[trigger] regex_find_all(patterns[c], haystack)[i]).1 <= cut_upto(
                patterns,
                haystack,
                n,
            ),
        cut_upto(patterns, haystack, n) == 0 || ends_a_match(
            patterns,
            haystack,
            n,
            cut_upto(patterns, haystack, n),
        ),
    decreases n,
{
    if n > 0 {
        lemma_cut_upto(patterns, haystack, n - 1);
        let spans = regex_find_all(patterns[n - 1], haystack);
        lemma_reach_upto(spans, spans.len() as int);
        let before = cut_upto(patterns, haystack, n - 1);
        let here = reach(spans);
        let now = cut_upto(patterns, haystack, n);
        if here > before {
            let i = choose|i: int| 0 <= i < spans.len() && (#[trigger] spans[i]).1 == here;
            assert(regex_find_all(patterns[n - 1], haystack)[i].1 == now);
        } else if before != 0 {
            let (c, i) = choose|c: int, i: int|
                0 <= c < n - 1 && 0 <= i < regex_find_all(patterns[c], haystack).len() && (
                #[trigger] regex_find_all(patterns[c], haystack)[i]).1 == before;
            assert(regex_find_all(patterns[c], haystack)[i].1 == now);
        }
    }
}

/// The cut is the furthest end of any match. No match of any channel ends
/// behind it, and unless it is 0 some match ends exactly there.
pub proof fn lemma_cut_is_furthest(patterns: Seq<Seq<char>>, haystack: Seq<char>)
    ensures
        forall|c: int, i: int|
            0 <= c < patterns.len() && 0 <= i < regex_find_all(patterns[c], haystack).len() ==> (
            #[trigger] regex_find_all(patterns[c], haystack)[i]).1 <= cut(patterns, haystack),
        cut(patterns, haystack) == 0 || ends_a_match(
            patterns,
            haystack,
            patterns.len() as int,
            cut(patterns, haystack),
        ),
{
    lemma_cut_upto(patterns, haystack, patterns.len() as int);
}

/// Nothing unresolved is let go. Text that starts at or behind the furthest
/// end of any match is still in the buffer after the scan, whole and in
/// place, and when the next piece arrives it stands there with that piece
/// behind it, to be scanned again. This holds of `at`, the start of a match
/// not yet complete, as long as no complete match reaches beyond it.
pub proof fn lemma_unresolved_text_is_kept(
    patterns: Seq<Seq<char>>,
    haystack: Seq<char>,
    at: int,
    next: Seq<char>,
)
    requires
        is_boundary(haystack, cut(patterns, haystack)),
        is_boundary(haystack, at),
        cut(patterns, haystack) <= at,
    ensures
        ({
            let held = kept(patterns, haystack);
            let moved = at - cut(patterns, haystack);
            &&& is_boundary(held, moved)
            &&& tail(held, moved) == tail(haystack, at)
            &&& is_boundary(held + next, moved)
            &&& tail(held + next, moved) == tail(haystack, at) + next
        }),
{
    let held = kept(patterns, haystack);
    let moved = at - cut(patterns, haystack);
    lemma_boundary_in_tail(haystack, cut(patterns, haystack), at);
    lemma_tail_of_concat(held, next, moved);
}

/// A scan that finds no match leaves the buffer as it is.
pub proof fn lemma_no_match_keeps_all(patterns: Seq<Seq<char>>, haystack: Seq<char>)
    requires
        forall|c: int|
            0 <= c < patterns.len() ==> regex_find_all(#[trigger] patterns[c], haystack).len()
                == 0,
    ensures
        kept(patterns, haystack) == haystack,
{
    lemma_cut_is_furthest(patterns, haystack);
    lemma_tail_from_start(haystack);
}

/// The batch of two runs of captures is the batch of the first followed by
/// the batch of the second.
pub proof fn lemma_batch_concat(first: Seq<Parsed>, second: Seq<Parsed>, stamp: i64)
    ensures
        batch_of(first + second, stamp) == batch_of(first, stamp) + batch_of(second, stamp),
    decreases second.len(),
{
    if second.len() == 0 {
        assert(first + second =~= first);
        assert(batch_of(first, stamp) + batch_of(second, stamp) =~= batch_of(first, stamp));
    } else {
        let shorter = second.drop_last();
        lemma_batch_concat(first, shorter, stamp);
        assert((first + second).drop_last() =~= first + shorter);
        assert((first + second).last() == second.last());
        match reading_of(second.last(), stamp) {
            Some(reading) => {
                assert(batch_of(first + second, stamp) =~= batch_of(first, stamp) + batch_of(
                    second,
                    stamp,
                ));
            },
            None => {},
        }
    }
}

/// Every reading of a batch has the stamp of the batch, and is the value
/// and the channel of one of the captures.
pub proof fn lemma_batch_shares_stamp(parsed: Seq<Parsed>, stamp: i64)
    ensures
        forall|i: int|
            0 <= i < batch_of(parsed, stamp).len() ==> {
                &&& (#[trigger] batch_of(parsed, stamp)[i]).stamp == stamp
                &&& exists|j: int|
                    0 <= j < parsed.len() && #[trigger] reading_of(parsed[j], stamp) == Some(
                        batch_of(parsed, stamp)[i],
                    )
            },
    decreases parsed.len(),
{
    if parsed.len() > 0 {
        let shorter = parsed.drop_last();
        lemma_batch_shares_stamp(shorter, stamp);
        let batch = batch_of(parsed, stamp);
        let earlier = batch_of(shorter, stamp);
        assert forall|i: int| 0 <= i < batch.len() implies {
            &&& (#[trigger] batch[i]).stamp == stamp
            &&& exists|j: int|
                0 <= j < parsed.len() && #[trigger] reading_of(parsed[j], stamp) == Some(batch[i])
        } by {
            if i < earlier.len() {
                assert(batch[i] == earlier[i]);
                let j = choose|j: int|
                    0 <= j < shorter.len() && #[trigger] reading_of(shorter[j], stamp) == Some(
                        earlier[i],
                    );
                assert(reading_of(parsed[j], stamp) == Some(batch[i]));
            } else {
                assert(reading_of(parsed[parsed.len() - 1], stamp) == Some(batch[i]));
            }
        }
    }
}

/// A capture that is no number is passed over and changes nothing else.
/// The batch is what it would be had the capture not been there: the
/// readings before it and behind it, of its own channel and of every
/// other, are the same and in the same order.
pub proof fn lemma_malformed_capture_is_passed_over(
    before: Seq<Parsed>,
    malformed: Parsed,
    behind: Seq<Parsed>,
    stamp: i64,
)
    requires
        malformed.value is None,
    ensures
        batch_of(before + seq![malformed] + behind, stamp) == batch_of(before + behind, stamp),
{
    lemma_batch_concat(before + seq![malformed], behind, stamp);
    lemma_batch_concat(before, seq![malformed], stamp);
    lemma_batch_concat(before, behind, stamp);
    Seq::lemma_filter_map_singleton(malformed, |p: Parsed| reading_of(p, stamp));
    assert(batch_of(before, stamp) + Seq::empty() =~= batch_of(before, stamp));
}

/// The text of a stream as the extractor comes to see it: each chunk
/// decoded by itself, one after the other.
pub open spec fn decoded(chunks: Seq<Seq<u8>>) -> Seq<char>
    decreases chunks.len(),
{
    if chunks.len() == 0 {
        Seq::empty()
    } else {
        decoded_text(chunks.first()) + decoded(chunks.drop_first())
    }
}

/// Every chunk is well-formed UTF-8 by itself: no chunk holds a byte that
/// belongs to no character, and no character lies across two chunks.
pub open spec fn well_formed(chunks: Seq<Seq<u8>>) -> bool {
    forall|i: int| 0 <= i < chunks.len() ==> valid_utf8(#[trigger] chunks[i])
}

/// Well-formed chunks decode to the text of their bytes taken together, so
/// the extractor sees the same text however such a stream is cut.
pub proof fn lemma_well_formed_chunks_decode_as_one(chunks: Seq<Seq<u8>>)
    requires
        well_formed(chunks),
    ensures
        valid_utf8(chunks.flatten()),
        decoded(chunks) == decode_utf8(chunks.flatten()),
    decreases chunks.len(),
{
    if chunks.len() > 0 {
        let later = chunks.drop_first();
        assert(valid_utf8(chunks[0]));
        assert forall|i: int| 0 <= i < later.len() implies valid_utf8(#[trigger] later[i]) by {
            assert(later[i] == chunks[i + 1]);
        }
        lemma_well_formed_chunks_decode_as_one(later);
        lemma_decode_concat(chunks.first(), later.flatten());
    }
}

/// Everything that is captured while the chunks arrive one by one, from the
/// moment at which `buffer` is held: the captures of the first scan, then
/// those of the second, and so on.
pub open spec fn streamed(patterns: Seq<Seq<char>>, buffer: Seq<char>, chunks: Seq<Seq<u8>>) -> Seq<
    Token,
>
    decreases chunks.len(),
{
    if chunks.len() == 0 {
        Seq::empty()
    } else {
        let haystack = haystack_of(buffer, chunks.first());
        tokens(patterns, haystack) + streamed(
            patterns,
            kept(patterns, haystack),
            chunks.drop_first(),
        )
    }
}

/// What is streamed is what the activations pass on, one after the other.
/// While working, the activation that a chunk sets off captures the first
/// part of what the chunks stream, and leaves a buffer from which the
/// chunks behind it stream the rest.
pub proof fn lemma_step_streams(
    patterns: Seq<Seq<char>>,
    with_sink: bool,
    buffer: Seq<char>,
    start_time: i64,
    chunks: Seq<Seq<u8>>,
    now: i64,
)
    requires
        chunks.len() > 0,
    ensures
        ({
            let working = PhaseView::Working { buffer, start_time };
            let (next, outcome) = step(patterns, with_sink, working, Some(chunks.first()), now);
            &&& next matches PhaseView::Working { buffer: left, start_time: since }
            &&& since == start_time
            &&& outcome matches OutcomeView::Scanned { tokens: found, stamp, start_time: from }
            &&& stamp == now && from == start_time
            &&& streamed(patterns, buffer, chunks) == found + streamed(
                patterns,
                left,
                chunks.drop_first(),
            )
        }),
{
}

/// What a channel yields of `tokens` once its texts have been read as
/// numbers by `read`, which gives nothing for a text that is no number.
pub open spec fn values_on(
    channel: int,
    tokens: Seq<Token>,
    read: spec_fn(Seq<char>) -> Option<u64>,
) -> Seq<u64> {
    texts_on(channel, tokens).filter_map(read)
}

/// The numbers among `batch` that belong to `channel`, in order.
pub open spec fn data_on(channel: int, batch: Seq<Data>) -> Seq<u64> {
    batch.filter(|d: Data| d.channel == channel).map_values(|d: Data| d.data)
}

/// Each value is what `read` makes of the text of its capture.
pub open spec fn read_with(
    tokens: Seq<Token>,
    values: Seq<Option<u64>>,
    read: spec_fn(Seq<char>) -> Option<u64>,
) -> bool {
    forall|at: int|
        0 <= at < tokens.len() ==> value_at(values, at) == read((#[trigger] tokens[at]).text)
}

/// Every token is on a channel that a reading can name.
pub open spec fn on_channels(tokens: Seq<Token>) -> bool {
    forall|at: int| 0 <= at < tokens.len() ==> 0 <= (#[trigger] tokens[at]).channel <= usize::MAX
}

/// No token is on a lower channel than one before it.
pub open spec fn by_channel(tokens: Seq<Token>) -> bool {
    forall|i: int, j: int|
        0 <= i <= j < tokens.len() ==> (#[trigger] tokens[i]).channel <= (
        #[trigger] tokens[j]).channel
}

/// What a batch holds of a channel is what reading gives of the channel's
/// captures: a number for every text that is one, in the order of the
/// texts, and nothing for the others.
proof fn lemma_batch_on_channel(
    tokens: Seq<Token>,
    values: Seq<Option<u64>>,
    read: spec_fn(Seq<char>) -> Option<u64>,
    stamp: i64,
    channel: int,
)
    requires
        read_with(tokens, values, read),
        on_channels(tokens),
    ensures
        data_on(channel, accepted(tokens, values, stamp)) == values_on(channel, tokens, read),
    decreases tokens.len(),
{
    let on = |t: Token| t.channel == channel;
    let of = |d: Data| d.channel == channel;
    if tokens.len() == 0 {
        reveal(Seq::filter);
        assert(paired(tokens, values) =~= Seq::<Parsed>::empty());
        assert(data_on(channel, accepted(tokens, values, stamp)) =~= Seq::<u64>::empty());
        assert(texts_on(channel, tokens) =~= Seq::<Seq<char>>::empty());
        assert(values_on(channel, tokens, read) =~= Seq::<u64>::empty());
    } else {
        let shorter = tokens.drop_last();
        let last = tokens.last();
        let all = paired(tokens, values);
        assert(read_with(shorter, values, read)) by {
            assert forall|at: int| 0 <= at < shorter.len() implies value_at(values, at) == read(
                (#[trigger] shorter[at]).text,
            ) by {
                assert(shorter[at] == tokens[at]);
            }
        }
        assert(on_channels(shorter)) by {
            assert forall|at: int| 0 <= at < shorter.len() implies 0 <= (
            #[trigger] shorter[at]).channel <= usize::MAX by {
                assert(shorter[at] == tokens[at]);
            }
        }
        lemma_batch_on_channel(shorter, values, read, stamp, channel);
        assert(all.drop_last() =~= paired(shorter, values));
        assert(all.last().token == last);
        assert(all.last().value == read(tokens[tokens.len() - 1].text));
        let before = accepted(shorter, values, stamp);
        let texts = texts_on(channel, shorter);
        assert(tokens =~= shorter.push(last));
        shorter.lemma_filter_push(last, on);
        if last.channel == channel {
            assert(shorter.filter(on).push(last).map_values(|t: Token| t.text) =~= texts.push(
                last.text,
            ));
            assert(texts.push(last.text).drop_last() =~= texts);
        }
        match read(last.text) {
            Some(bits) => {
                let reading = Data { stamp, channel: last.channel as usize, data: bits };
                assert(accepted(tokens, values, stamp) =~= before.push(reading));
                before.lemma_filter_push(reading, of);
                if last.channel == channel {
                    assert(before.filter(of).push(reading).map_values(|d: Data| d.data)
                        =~= data_on(channel, before).push(bits));
                    assert(values_on(channel, tokens, read) =~= values_on(
                        channel,
                        shorter,
                        read,
                    ).push(bits));
                }
            },
            None => {
                assert(accepted(tokens, values, stamp) == before);
            },
        }
    }
}

/// A batch follows its captures: every reading has the stamp of the batch,
/// and where no capture is on a lower channel than one before it, no
/// reading is, and none is on a higher channel than the last capture.
proof fn lemma_batch_follows_captures(tokens: Seq<Token>, values: Seq<Option<u64>>, stamp: i64)
    requires
        on_channels(tokens),
        by_channel(tokens),
    ensures
        forall|i: int|
            0 <= i < accepted(tokens, values, stamp).len() ==> {
                &&& (#[trigger] accepted(tokens, values, stamp)[i]).stamp == stamp
                &&& accepted(tokens, values, stamp)[i].channel <= tokens.last().channel
            },
        forall|i: int, j: int|
            0 <= i <= j < accepted(tokens, values, stamp).len() ==> (#[trigger] accepted(
                tokens,
                values,
                stamp,
            )[i]).channel <= (#[trigger] accepted(tokens, values, stamp)[j]).channel,
    decreases tokens.len(),
{
    if tokens.len() == 0 {
        assert(paired(tokens, values) =~= Seq::<Parsed>::empty());
    } else {
        let shorter = tokens.drop_last();
        let last = tokens.last();
        let all = paired(tokens, values);
        assert(on_channels(shorter) && by_channel(shorter)) by {
            assert forall|at: int| 0 <= at < shorter.len() implies 0 <= (
            #[trigger] shorter[at]).channel <= usize::MAX by {
                assert(shorter[at] == tokens[at]);
            }
            assert forall|i: int, j: int| 0 <= i <= j < shorter.len() implies (
            #[trigger] shorter[i]).channel <= (#[trigger] shorter[j]).channel by {
                assert(shorter[i] == tokens[i] && shorter[j] == tokens[j]);
            }
        }
        lemma_batch_follows_captures(shorter, values, stamp);
        assert(all.drop_last() =~= paired(shorter, values));
        assert(all.last().token == last);
        let before = accepted(shorter, values, stamp);
        let batch = accepted(tokens, values, stamp);
        if shorter.len() > 0 {
            assert(shorter.last() == tokens[tokens.len() - 2]);
            assert(tokens[tokens.len() - 2].channel <= tokens[tokens.len() - 1].channel);
        }
        assert forall|i: int| 0 <= i < before.len() implies (#[trigger] before[i]).channel
            <= last.channel by {
            assert(before[i].channel <= shorter.last().channel);
        }
        match all.last().value {
            Some(bits) => {
                let reading = Data { stamp, channel: last.channel as usize, data: bits };
                assert(batch =~= before.push(reading));
                assert forall|i: int| 0 <= i < batch.len() implies {
                    &&& (#[trigger] batch[i]).stamp == stamp
                    &&& batch[i].channel <= last.channel
                } by {
                    if i < before.len() {
                        assert(batch[i] == before[i]);
                    }
                }
                assert forall|i: int, j: int| 0 <= i <= j < batch.len() implies (
                #[trigger] batch[i]).channel <= (#[trigger] batch[j]).channel by {
                    if j < before.len() {
                        assert(batch[i] == before[i] && batch[j] == before[j]);
                    } else if i < before.len() {
                        assert(batch[i] == before[i]);
                    }
                }
            },
            None => {
                assert(batch == before);
            },
        }
    }
}

/// The captures of a scan come channel by channel.
proof fn lemma_tokens_by_channel(patterns: Seq<Seq<char>>, haystack: Seq<char>, n: int)
    requires
        0 <= n <= patterns.len(),
    ensures
        by_channel(tokens_upto(patterns, haystack, n)),
    decreases n,
{
    if n > 0 {
        lemma_tokens_by_channel(patterns, haystack, n - 1);
        lemma_tokens_name_channels(patterns, haystack, n - 1);
        let before = tokens_upto(patterns, haystack, n - 1);
        let here = tagged(n - 1, captured(patterns[n - 1], haystack));
        let all = before + here;
        assert forall|i: int, j: int| 0 <= i <= j < all.len() implies (#[trigger] all[i]).channel
            <= (#[trigger] all[j]).channel by {
            if j < before.len() {
                assert(all[i] == before[i] && all[j] == before[j]);
            } else if i < before.len() {
                assert(all[i] == before[i] && all[j] == here[j - before.len()]);
            } else {
                assert(all[i] == here[i - before.len()] && all[j] == here[j - before.len()]);
            }
        }
    }
}

/// The batch of a scan, in general. When every capture of a scan is read
/// as a number by `read`, then whatever the text, the buffer and the
/// matchers:
/// every reading has the stamp of the scan and the channel of a matcher;
/// the readings come channel by channel; and on each channel they are the
/// numbers of that matcher's captures, match by match from left to right.
/// A capture that is no number adds nothing and takes nothing away, on its
/// own channel or any other.
pub proof fn lemma_batch_of_scan(
    patterns: Seq<Seq<char>>,
    haystack: Seq<char>,
    values: Seq<Option<u64>>,
    read: spec_fn(Seq<char>) -> Option<u64>,
    stamp: i64,
)
    requires
        patterns.len() <= usize::MAX,
        read_with(tokens(patterns, haystack), values, read),
    ensures
        ({
            let batch = accepted(tokens(patterns, haystack), values, stamp);
            &&& forall|i: int|
                0 <= i < batch.len() ==> (#[trigger] batch[i]).stamp == stamp && batch[i].channel
                    < patterns.len()
            &&& forall|i: int, j: int|
                0 <= i <= j < batch.len() ==> (#[trigger] batch[i]).channel <= (
                #[trigger] batch[j]).channel
            &&& forall|channel: int|
                0 <= channel < patterns.len() ==> #[trigger] data_on(channel, batch) == captured(
                    patterns[channel],
                    haystack,
                ).filter_map(read)
        }),
{
    let found = tokens(patterns, haystack);
    let batch = accepted(found, values, stamp);
    lemma_tokens_name_channels(patterns, haystack, patterns.len() as int);
    lemma_tokens_by_channel(patterns, haystack, patterns.len() as int);
    lemma_batch_follows_captures(found, values, stamp);
    assert forall|i: int| 0 <= i < batch.len() implies (#[trigger] batch[i]).channel
        < patterns.len() by {
        assert(batch[i].channel <= found.last().channel);
        assert(found.len() > 0) by {
            if found.len() == 0 {
                assert(paired(found, values) =~= Seq::<Parsed>::empty());
            }
        }
        assert(found[found.len() - 1].channel < patterns.len());
    }
    assert forall|channel: int| 0 <= channel < patterns.len() implies #[trigger] data_on(
        channel,
        batch,
    ) == captured(patterns[channel], haystack).filter_map(read) by {
        lemma_batch_on_channel(found, values, read, stamp, channel);
        lemma_scan_by_channel(patterns, haystack, channel);
    }
}

/// The scan of `haystack` and the scans that follow it miss nothing of a
/// channel and read nothing twice, if `rest` is the text still to come:
/// what the channel's matcher captures in the whole is what it captures in
/// `haystack`, followed by what it captures in the text that is kept with
/// `rest` behind it.
///
/// This is a condition on the matchers. It fails where a match of
/// `haystack` would have been longer or elsewhere with more text behind it,
/// where a match of the whole begins before the cut and ends behind it, and
/// where a pattern reads the text kept differently for what stood before
/// it.
pub open spec fn resumes(
    patterns: Seq<Seq<char>>,
    channel: int,
    haystack: Seq<char>,
    rest: Seq<char>,
) -> bool {
    captured(patterns[channel], haystack + rest) == captured(patterns[channel], haystack)
        + captured(patterns[channel], kept(patterns, haystack) + rest)
}

/// [`resumes`] holds at every scan but the last while the chunks arrive one
/// by one, from the moment at which `buffer` is held.
pub open spec fn resumes_throughout(
    patterns: Seq<Seq<char>>,
    channel: int,
    buffer: Seq<char>,
    chunks: Seq<Seq<u8>>,
) -> bool
    decreases chunks.len(),
{
    chunks.len() <= 1 || {
        let haystack = haystack_of(buffer, chunks.first());
        &&& resumes(patterns, channel, haystack, decoded(chunks.drop_first()))
        &&& resumes_throughout(patterns, channel, kept(patterns, haystack), chunks.drop_first())
    }
}

/// A stream read in chunks is read as if it were one. Where the matchers
/// resume at every cut, what a channel yields while the chunks arrive is
/// what its matcher captures in the buffer followed by the whole text of
/// the stream.
pub proof fn lemma_stream_reads_as_one(
    patterns: Seq<Seq<char>>,
    channel: int,
    buffer: Seq<char>,
    chunks: Seq<Seq<u8>>,
)
    requires
        0 <= channel < patterns.len(),
        chunks.len() > 0,
        resumes_throughout(patterns, channel, buffer, chunks),
    ensures
        texts_on(channel, streamed(patterns, buffer, chunks)) == captured(
            patterns[channel],
            buffer + decoded(chunks),
        ),
    decreases chunks.len(),
{
    let on = |t: Token| t.channel == channel;
    let haystack = haystack_of(buffer, chunks.first());
    let later = chunks.drop_first();
    let first = tokens(patterns, haystack);
    let then = streamed(patterns, kept(patterns, haystack), later);
    lemma_scan_by_channel(patterns, haystack, channel);
    Seq::filter_distributes_over_add(first, then, on);
    assert(texts_on(channel, first + then) =~= texts_on(channel, first) + texts_on(channel, then));
    if later.len() == 0 {
        reveal(Seq::filter);
        assert(texts_on(channel, then) =~= Seq::<Seq<char>>::empty());
        assert(decoded(later) =~= Seq::<char>::empty());
        assert(buffer + decoded(chunks) =~= haystack);
        assert(texts_on(channel, first) + Seq::<Seq<char>>::empty() =~= texts_on(channel, first));
    } else {
        lemma_stream_reads_as_one(patterns, channel, kept(patterns, haystack), later);
        assert(buffer + decoded(chunks) =~= haystack + decoded(later));
    }
}

/// Chunk-boundary invariance. Two ways of cutting a stream into chunks
/// that give the extractor the same text yield, on every channel, the same
/// captures in the same order, and so the same values however a text is
/// read as a number, as long as the matchers resume at every cut of
/// either: nothing is lost, doubled or moved.
///
/// The order between channels is not part of this: it is by scan first,
/// and so follows the chunks.
pub proof fn lemma_chunk_boundaries_do_not_matter(
    patterns: Seq<Seq<char>>,
    channel: int,
    one: Seq<Seq<u8>>,
    other: Seq<Seq<u8>>,
)
    requires
        0 <= channel < patterns.len(),
        one.len() > 0,
        other.len() > 0,
        decoded(one) == decoded(other),
        resumes_throughout(patterns, channel, Seq::empty(), one),
        resumes_throughout(patterns, channel, Seq::empty(), other),
    ensures
        texts_on(channel, streamed(patterns, Seq::empty(), one)) == texts_on(
            channel,
            streamed(patterns, Seq::empty(), other),
        ),
        forall|read: spec_fn(Seq<char>) -> Option<u64>| #[trigger]
            values_on(channel, streamed(patterns, Seq::empty(), one), read) == values_on(
                channel,
                streamed(patterns, Seq::empty(), other),
                read,
            ),
{
    lemma_stream_reads_as_one(patterns, channel, Seq::empty(), one);
    lemma_stream_reads_as_one(patterns, channel, Seq::empty(), other);
}

/// Chunk-boundary invariance, of the bytes. Two ways of cutting the same
/// bytes into chunks, neither of which cuts through a character, yield on
/// every channel the same captures in the same order, as long as the
/// matchers resume at every cut of either.
pub proof fn lemma_cutting_bytes_does_not_matter(
    patterns: Seq<Seq<char>>,
    channel: int,
    one: Seq<Seq<u8>>,
    other: Seq<Seq<u8>>,
)
    requires
        0 <= channel < patterns.len(),
        one.len() > 0,
        other.len() > 0,
        one.flatten() == other.flatten(),
        well_formed(one),
        well_formed(other),
        resumes_throughout(patterns, channel, Seq::empty(), one),
        resumes_throughout(patterns, channel, Seq::empty(), other),
    ensures
        texts_on(channel, streamed(patterns, Seq::empty(), one)) == texts_on(
            channel,
            streamed(patterns, Seq::empty(), other),
        ),
        texts_on(channel, streamed(patterns, Seq::empty(), one)) == captured(
            patterns[channel],
            decode_utf8(one.flatten()),
        ),
{
    lemma_well_formed_chunks_decode_as_one(one);
    lemma_well_formed_chunks_decode_as_one(other);
    lemma_chunk_boundaries_do_not_matter(patterns, channel, one, other);
    lemma_stream_reads_as_one(patterns, channel, Seq::empty(), one);
    assert(Seq::<char>::empty() + decoded(one) =~= decoded(one));
}

} // verus!
