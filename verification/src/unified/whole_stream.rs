//! What a client gets of one choice over a whole stream.

use vstd::prelude::*;

use super::choice::{
    advance_deltas, calls_since, is_chunk_step, is_end_step, no_progress, Advance, Slot,
};
use super::deltas::{pieces, text_pieces, Piece};
use super::laws::{
    chunk_pieces, fed, given_up_text, law_a_failed_choice_passes_its_text,
    law_a_terminating_chunk_reports_last, law_an_end_shows_what_its_parser_said,
    law_an_unterminated_tool_call_is_terminated, lemma_chunk_account, lemma_chunks_of_two_runs,
    lemma_end_account, lemma_fed_of_two_runs, lemma_said_of_two_runs, lemma_shown_of_two_runs,
    run_pieces, said, shown_deltas, text_of_chunk,
};
use super::request::is_already_parsed;
use super::stream::{
    fresh_slot, is_choice_step, is_choices_run, is_flush, is_flush_run, is_flush_step,
    is_followed_by, is_parsed_step, is_pending, is_refused_step, is_set_up_refusal, new_stream,
    without_failures, SettingsView, StreamView,
};
use super::types::{ChoiceView, DeltaView};
use super::UnifiedParserError;

verus! {

// --- a stream from its beginning -------------------------------------------------

/// What can happen to a stream.
pub enum StreamEvent {
    /// An upstream response with choices.
    Choices(Seq<ChoiceView>),
    /// An upstream response without choices, or the end of the stream.
    Flush,
    /// The failures are handed out.
    Report,
}

/// The event takes the stream from `before` to `after` and becomes `out`.
pub open spec fn is_event_step(
    settings: SettingsView,
    before: StreamView,
    event: StreamEvent,
    after: StreamView,
    out: Seq<ChoiceView>,
) -> bool {
    match event {
        StreamEvent::Choices(originals) => is_choices_run(settings, before, originals, after, out),
        StreamEvent::Flush => is_flush(before, after, out),
        StreamEvent::Report => after == without_failures(before) && out
            == Seq::<ChoiceView>::empty(),
    }
}

/// The events, one after the other, take a new stream to `after` and become `out`.
pub open spec fn is_history(
    settings: SettingsView,
    events: Seq<StreamEvent>,
    after: StreamView,
    out: Seq<ChoiceView>,
) -> bool
    decreases events.len(),
{
    if events.len() == 0 {
        after == new_stream() && out == Seq::<ChoiceView>::empty()
    } else {
        exists|middle: StreamView, front: Seq<ChoiceView>, last: Seq<ChoiceView>|
            {
                &&& is_history(settings, events.drop_last(), middle, front)
                &&& #[trigger] is_event_step(settings, middle, events.last(), after, last)
                &&& #[trigger] is_followed_by(out, front, last)
            }
    }
}

/// The chunk holds content in parts, tool calls or reasoning, which only something that
/// has parsed it can have put there. Nothing else about a chunk matters.
pub open spec fn holds_parsed(original: ChoiceView) -> bool {
    let in_parts = match original.content {
        Some(content) => !(content is Text),
        None => false,
    };
    in_parts || !(original.tool_calls is None && original.reasoning_content is None)
}

/// The text that is to be parsed for a choice in one upstream response.
pub open spec fn text_for(originals: Seq<ChoiceView>, index: u32) -> Seq<char>
    decreases originals.len(),
{
    if originals.len() == 0 {
        seq![]
    } else {
        text_for(originals.drop_last(), index) + text_if_for(originals.last(), index)
    }
}

/// The text of a chunk, if it is to be parsed and is of this choice.
pub open spec fn text_if_for(original: ChoiceView, index: u32) -> Seq<char> {
    if original.index == index && !holds_parsed(original) {
        text_of_chunk(original)
    } else {
        seq![]
    }
}

/// The chunks of a choice that come parsed already in one upstream response.
pub open spec fn parsed_for(originals: Seq<ChoiceView>, index: u32) -> Seq<ChoiceView>
    decreases originals.len(),
{
    if originals.len() == 0 {
        seq![]
    } else {
        parsed_for(originals.drop_last(), index) + parsed_if_for(originals.last(), index)
    }
}

/// The chunk, if it comes parsed already and is of this choice.
pub open spec fn parsed_if_for(original: ChoiceView, index: u32) -> Seq<ChoiceView> {
    if original.index == index && holds_parsed(original) {
        seq![original]
    } else {
        seq![]
    }
}

/// The text that is to be parsed for a choice, in order.
pub open spec fn history_text(events: Seq<StreamEvent>, index: u32) -> Seq<char>
    decreases events.len(),
{
    if events.len() == 0 {
        seq![]
    } else {
        history_text(events.drop_last(), index) + match events.last() {
            StreamEvent::Choices(originals) => text_for(originals, index),
            _ => seq![],
        }
    }
}

/// The chunks of a choice that come parsed already, in order.
pub open spec fn history_parsed(events: Seq<StreamEvent>, index: u32) -> Seq<ChoiceView>
    decreases events.len(),
{
    if events.len() == 0 {
        seq![]
    } else {
        history_parsed(events.drop_last(), index) + match events.last() {
            StreamEvent::Choices(originals) => parsed_for(originals, index),
            _ => seq![],
        }
    }
}

/// The chunks of one choice, in order.
pub open spec fn chunks_for(chunks: Seq<ChoiceView>, index: u32) -> Seq<ChoiceView>
    decreases chunks.len(),
{
    if chunks.len() == 0 {
        seq![]
    } else {
        chunks_for(chunks.drop_last(), index) + if chunks.last().index == index {
            seq![chunks.last()]
        } else {
            seq![]
        }
    }
}

/// `whole` is made of `left` and `right`, each in its order.
pub open spec fn is_merge(
    whole: Seq<ChoiceView>,
    left: Seq<ChoiceView>,
    right: Seq<ChoiceView>,
) -> bool
    decreases whole.len(),
{
    if whole.len() == 0 {
        left.len() == 0 && right.len() == 0
    } else {
        ||| left.len() > 0 && left.last() == whole.last() && is_merge(
            whole.drop_last(),
            left.drop_last(),
            right,
        )
        ||| right.len() > 0 && right.last() == whole.last() && is_merge(
            whole.drop_last(),
            left,
            right.drop_last(),
        )
    }
}

/// A choice that has no parser yet.
pub open spec fn no_slot() -> Slot {
    Slot { progress: no_progress(), calls: seq![], failure: None }
}

/// The choice as the stream has it.
pub open spec fn slot_of(stream: StreamView, index: u32) -> Slot {
    if stream.slots.contains_key(index) {
        stream.slots[index]
    } else {
        no_slot()
    }
}

/// The set-up of a parser has been refused.
pub open spec fn was_refused(settings: SettingsView) -> bool {
    exists|error: UnifiedParserError| #[trigger] is_set_up_refusal(settings, error)
}

/// Where the text of a choice has gone, and where what is shown has come from. Text that
/// came before there was a parser (`early`) and after it was given up (`late`) is shown as
/// it is; all other text was fed to the parser. Between the two is shown all that the
/// parser said and, when it was given up, the text that was recovered from it.
pub open spec fn is_account(
    slot: Slot,
    text: Seq<char>,
    shown: Seq<Piece>,
    early: Seq<char>,
    late: Seq<char>,
) -> bool {
    &&& text == early + fed(slot.calls) + late
    &&& shown == text_pieces(early) + shown_deltas(said(slot.calls)) + text_pieces(
        given_up_text(slot),
    ) + text_pieces(late)
    &&& late.len() > 0 ==> slot.progress.failed
}

/// What has come for a choice and what has gone out.
pub struct Exchange {
    /// The text that is to be parsed.
    pub text: Seq<char>,
    /// The chunks that came parsed already.
    pub parsed: Seq<ChoiceView>,
    /// The chunks that went out.
    pub chunks: Seq<ChoiceView>,
}

/// The chunks that went out for a choice are those that came parsed already, as they are,
/// and the chunks `rest`, in which all text is accounted for. Text passes before there is
/// a parser only when its set-up is refused.
pub open spec fn is_told(
    settings: SettingsView,
    slot: Slot,
    exchange: Exchange,
    rest: Seq<ChoiceView>,
    early: Seq<char>,
    late: Seq<char>,
) -> bool {
    &&& is_merge(exchange.chunks, exchange.parsed, rest)
    &&& is_account(slot, exchange.text, run_pieces(rest), early, late)
    &&& early.len() > 0 ==> was_refused(settings)
}

// --- one step --------------------------------------------------------------------

proof fn lemma_text_pieces_of_two(left: Seq<char>, right: Seq<char>)
    ensures
        text_pieces(left + right) == text_pieces(left) + text_pieces(right),
{
    assert(text_pieces(left + right) =~= text_pieces(left) + text_pieces(right));
}

/// A fresh parser has been fed nothing and has said nothing.
proof fn lemma_fresh_account(settings: SettingsView)
    ensures
        fed(fresh_slot(settings).calls) == Seq::<char>::empty(),
        said(fresh_slot(settings).calls) == Seq::<DeltaView>::empty(),
        given_up_text(fresh_slot(settings)) == Seq::<char>::empty(),
{
    let calls = fresh_slot(settings).calls;
    reveal_with_fuel(fed, 3);
    reveal_with_fuel(said, 3);
    assert(calls.drop_last().drop_last() =~= seq![]);
    assert(fed(calls) =~= seq![]);
    assert(said(calls) =~= seq![]);
}

/// An account goes on when new calls are made on a parser that had not been given up.
proof fn lemma_account_goes_on(
    before: Slot,
    after: Slot,
    text: Seq<char>,
    shown: Seq<Piece>,
    early: Seq<char>,
    late: Seq<char>,
    more_text: Seq<char>,
    more: Seq<Piece>,
)
    requires
        is_account(before, text, shown, early, late),
        !before.progress.failed,
        after.calls == before.calls + calls_since(before.calls, after.calls),
        fed(calls_since(before.calls, after.calls)) == more_text,
        more == shown_deltas(said(calls_since(before.calls, after.calls))) + text_pieces(
            given_up_text(after),
        ),
    ensures
        is_account(after, text + more_text, shown + more, early, late),
{
    let calls = calls_since(before.calls, after.calls);
    lemma_fed_of_two_runs(before.calls, calls);
    lemma_said_of_two_runs(before.calls, calls);
    lemma_shown_of_two_runs(said(before.calls), said(calls));
    assert(late =~= seq![]);
    assert(text + more_text =~= early + fed(after.calls) + late);
    assert(shown + more =~= text_pieces(early) + shown_deltas(said(after.calls)) + text_pieces(
        given_up_text(after),
    ) + text_pieces(late));
}

/// An account goes on when text passes a parser that has been given up.
proof fn lemma_account_passes(
    slot: Slot,
    text: Seq<char>,
    shown: Seq<Piece>,
    early: Seq<char>,
    late: Seq<char>,
    passed: Seq<char>,
)
    requires
        is_account(slot, text, shown, early, late),
        slot.progress.failed,
    ensures
        is_account(slot, text + passed, shown + text_pieces(passed), early, late + passed),
{
    lemma_text_pieces_of_two(late, passed);
    assert(text + passed =~= early + fed(slot.calls) + (late + passed));
    assert(shown + text_pieces(passed) =~= text_pieces(early) + shown_deltas(said(slot.calls))
        + text_pieces(given_up_text(slot)) + text_pieces(late + passed));
}

proof fn lemma_chunk_goes_on(
    before: Slot,
    original: ChoiceView,
    ends: bool,
    after: Slot,
    out: Seq<ChoiceView>,
    text: Seq<char>,
    shown: Seq<Piece>,
    early: Seq<char>,
    late: Seq<char>,
) -> (later: Seq<char>)
    requires
        is_chunk_step(before, original, ends, after, out),
        is_account(before, text, shown, early, late),
    ensures
        is_account(after, text + text_of_chunk(original), shown + run_pieces(out), early, later),
{
    if before.progress.failed {
        law_a_failed_choice_passes_its_text(before, original, ends, after, out);
        lemma_account_passes(before, text, shown, early, late, text_of_chunk(original));
        late + text_of_chunk(original)
    } else {
        lemma_chunk_account(before, original, ends, after, out);
        lemma_account_goes_on(
            before,
            after,
            text,
            shown,
            early,
            late,
            text_of_chunk(original),
            run_pieces(out),
        );
        late
    }
}

proof fn lemma_end_goes_on(
    before: Slot,
    index: u32,
    after: Slot,
    out: Seq<ChoiceView>,
    text: Seq<char>,
    shown: Seq<Piece>,
    early: Seq<char>,
    late: Seq<char>,
)
    requires
        is_end_step(before, index, after, out),
        is_account(before, text, shown, early, late),
    ensures
        is_account(after, text, shown + run_pieces(out), early, late),
{
    assert(text + Seq::<char>::empty() =~= text);
    if before.progress.failed {
        let calls = calls_since(before.calls, after.calls);
        assert(before.calls + calls =~= before.calls);
        law_an_end_shows_what_its_parser_said(before, index, after, out);
        assert(run_pieces(out) =~= seq![]) by {
            let none = advance_deltas(true, Advance::End, calls);
            assert(none =~= seq![]);
            assert(pieces(none) =~= seq![]);
        }
        assert(shown + run_pieces(out) =~= shown);
    } else {
        lemma_end_account(before, index, after, out);
        lemma_account_goes_on(
            before,
            after,
            text,
            shown,
            early,
            late,
            Seq::<char>::empty(),
            run_pieces(out),
        );
    }
}

// --- chunks of one choice among others -------------------------------------------

proof fn lemma_three_in_a_row<T>(a: Seq<T>, b: Seq<T>, c: Seq<T>)
    ensures
        a + (b + c) == a + b + c,
{
    assert(a + (b + c) =~= a + b + c);
}

proof fn lemma_merge_of_two(
    whole: Seq<ChoiceView>,
    left: Seq<ChoiceView>,
    right: Seq<ChoiceView>,
    more: Seq<ChoiceView>,
    more_left: Seq<ChoiceView>,
    more_right: Seq<ChoiceView>,
)
    requires
        is_merge(whole, left, right),
        is_merge(more, more_left, more_right),
    ensures
        is_merge(whole + more, left + more_left, right + more_right),
    decreases more.len(),
{
    if more.len() == 0 {
        assert(whole + more =~= whole);
        assert(left + more_left =~= left);
        assert(right + more_right =~= right);
    } else {
        let all = whole + more;
        assert(all.drop_last() =~= whole + more.drop_last());
        assert(all.last() == more.last());
        if more_left.len() > 0 && more_left.last() == more.last() && is_merge(
            more.drop_last(),
            more_left.drop_last(),
            more_right,
        ) {
            lemma_merge_of_two(
                whole,
                left,
                right,
                more.drop_last(),
                more_left.drop_last(),
                more_right,
            );
            let both = left + more_left;
            assert(both.drop_last() =~= left + more_left.drop_last());
            assert(both.last() == more_left.last());
        } else {
            lemma_merge_of_two(
                whole,
                left,
                right,
                more.drop_last(),
                more_left,
                more_right.drop_last(),
            );
            let both = right + more_right;
            assert(both.drop_last() =~= right + more_right.drop_last());
            assert(both.last() == more_right.last());
        }
    }
}

/// Any chunks are themselves and none.
proof fn lemma_merge_with_none(chunks: Seq<ChoiceView>)
    ensures
        is_merge(chunks, seq![], chunks),
        is_merge(chunks, chunks, seq![]),
    decreases chunks.len(),
{
    if chunks.len() > 0 {
        lemma_merge_with_none(chunks.drop_last());
    }
}

proof fn lemma_chunks_for_two_runs(left: Seq<ChoiceView>, right: Seq<ChoiceView>, index: u32)
    ensures
        chunks_for(left + right, index) == chunks_for(left, index) + chunks_for(right, index),
    decreases right.len(),
{
    if right.len() == 0 {
        assert(left + right =~= left);
        assert(chunks_for(left, index) + chunks_for(right, index) =~= chunks_for(left, index));
    } else {
        assert((left + right).drop_last() =~= left + right.drop_last());
        lemma_chunks_for_two_runs(left, right.drop_last(), index);
        assert(chunks_for(left + right, index) =~= chunks_for(left, index) + chunks_for(
            right,
            index,
        ));
    }
}

/// Chunks of one choice are all its own, and no other's.
proof fn lemma_chunks_for_one_choice(chunks: Seq<ChoiceView>, of: u32, index: u32)
    requires
        forall|k: int| 0 <= k < chunks.len() ==> (#[trigger] chunks[k]).index == of,
    ensures
        chunks_for(chunks, index) == if of == index {
            chunks
        } else {
            seq![]
        },
    decreases chunks.len(),
{
    if chunks.len() > 0 {
        let fewer = chunks.drop_last();
        assert forall|k: int| 0 <= k < fewer.len() implies (#[trigger] fewer[k]).index == of by {
            assert(fewer[k] == chunks[k]);
        }
        lemma_chunks_for_one_choice(fewer, of, index);
        assert(chunks.last() == chunks[chunks.len() - 1]);
        if of == index {
            assert(chunks_for(chunks, index) =~= chunks);
        } else {
            assert(chunks_for(chunks, index) =~= seq![]);
        }
    }
}

/// The exchange with more text, more parsed chunks and more chunks.
spec fn with_more(
    exchange: Exchange,
    text: Seq<char>,
    parsed: Seq<ChoiceView>,
    chunks: Seq<ChoiceView>,
) -> Exchange {
    Exchange {
        text: exchange.text + text,
        parsed: exchange.parsed + parsed,
        chunks: exchange.chunks + chunks,
    }
}

/// Nothing more leaves an exchange as it is.
proof fn lemma_nothing_more(exchange: Exchange)
    ensures
        with_more(exchange, seq![], seq![], seq![]) == exchange,
{
    assert(exchange.text + Seq::<char>::empty() =~= exchange.text);
    assert(exchange.parsed + Seq::<ChoiceView>::empty() =~= exchange.parsed);
    assert(exchange.chunks + Seq::<ChoiceView>::empty() =~= exchange.chunks);
}

/// More and still more is more at once.
proof fn lemma_more_twice(
    exchange: Exchange,
    text: Seq<char>,
    parsed: Seq<ChoiceView>,
    chunks: Seq<ChoiceView>,
    more_text: Seq<char>,
    more_parsed: Seq<ChoiceView>,
    more_chunks: Seq<ChoiceView>,
)
    ensures
        with_more(
            with_more(exchange, text, parsed, chunks),
            more_text,
            more_parsed,
            more_chunks,
        ) == with_more(
            exchange,
            text + more_text,
            parsed + more_parsed,
            chunks + more_chunks,
        ),
{
    lemma_three_in_a_row(exchange.text, text, more_text);
    lemma_three_in_a_row(exchange.parsed, parsed, more_parsed);
    lemma_three_in_a_row(exchange.chunks, chunks, more_chunks);
}

/// How a telling is broken down: the chunks that did not come parsed, the text that passed
/// before there was a parser and the text that passed after it was given up.
struct Parts {
    rest: Seq<ChoiceView>,
    early: Seq<char>,
    late: Seq<char>,
}

spec fn is_told_by(settings: SettingsView, slot: Slot, exchange: Exchange, parts: Parts) -> bool {
    is_told(settings, slot, exchange, parts.rest, parts.early, parts.late)
}

/// A chunk that comes parsed already is told as it is.
proof fn lemma_tell_parsed(
    settings: SettingsView,
    slot: Slot,
    exchange: Exchange,
    parts: Parts,
    original: ChoiceView,
)
    requires
        is_told_by(settings, slot, exchange, parts),
    ensures
        is_told_by(
            settings,
            slot,
            with_more(exchange, seq![], seq![original], seq![original]),
            parts,
        ),
{
    let one = seq![original];
    lemma_merge_with_none(one);
    lemma_merge_of_two(exchange.chunks, exchange.parsed, parts.rest, one, one, seq![]);
    assert(parts.rest + Seq::<ChoiceView>::empty() =~= parts.rest);
    assert(exchange.text + Seq::<char>::empty() =~= exchange.text);
}

/// A chunk of a choice whose set-up is refused is told as it is.
proof fn lemma_tell_refused(
    settings: SettingsView,
    exchange: Exchange,
    parts: Parts,
    original: ChoiceView,
) -> (next: Parts)
    requires
        is_told_by(settings, no_slot(), exchange, parts),
        was_refused(settings),
        !is_already_parsed(original),
    ensures
        is_told_by(
            settings,
            no_slot(),
            with_more(exchange, text_of_chunk(original), seq![], seq![original]),
            next,
        ),
{
    let one = seq![original];
    let none = no_slot();
    let passed = text_of_chunk(original);
    let early = parts.early + passed;
    let rest = parts.rest + one;
    lemma_merge_with_none(one);
    lemma_merge_of_two(exchange.chunks, exchange.parsed, parts.rest, one, seq![], one);
    assert(exchange.parsed + Seq::<ChoiceView>::empty() =~= exchange.parsed);
    lemma_chunks_of_two_runs(parts.rest, one);
    assert(one.drop_last() =~= seq![]);
    assert(run_pieces(one.drop_last()) =~= seq![]);
    assert(chunk_pieces(original) =~= text_pieces(passed));
    assert(run_pieces(one) =~= text_pieces(passed));
    lemma_text_pieces_of_two(parts.early, passed);
    assert(parts.late =~= seq![]);
    assert(fed(none.calls) =~= seq![]);
    assert(said(none.calls) =~= seq![]);
    assert(pieces(said(none.calls)) =~= seq![]);
    assert(exchange.text + passed =~= early + fed(none.calls) + parts.late);
    assert(run_pieces(rest) =~= text_pieces(early) + shown_deltas(said(none.calls)) + text_pieces(
        given_up_text(none),
    ) + text_pieces(parts.late));
    Parts { rest, early, late: parts.late }
}

/// A chunk that goes through the parser of its choice is told.
proof fn lemma_tell_chunk(
    settings: SettingsView,
    before: Slot,
    original: ChoiceView,
    ends: bool,
    after: Slot,
    out: Seq<ChoiceView>,
    exchange: Exchange,
    parts: Parts,
) -> (next: Parts)
    requires
        is_chunk_step(before, original, ends, after, out),
        is_told_by(settings, before, exchange, parts),
    ensures
        is_told_by(
            settings,
            after,
            with_more(exchange, text_of_chunk(original), seq![], out),
            next,
        ),
{
    lemma_merge_with_none(out);
    lemma_merge_of_two(exchange.chunks, exchange.parsed, parts.rest, out, seq![], out);
    assert(exchange.parsed + Seq::<ChoiceView>::empty() =~= exchange.parsed);
    lemma_chunks_of_two_runs(parts.rest, out);
    let late = lemma_chunk_goes_on(
        before,
        original,
        ends,
        after,
        out,
        exchange.text,
        run_pieces(parts.rest),
        parts.early,
        parts.late,
    );
    Parts { rest: parts.rest + out, early: parts.early, late }
}

/// The end of a choice is told.
proof fn lemma_tell_end(
    settings: SettingsView,
    before: Slot,
    index: u32,
    after: Slot,
    out: Seq<ChoiceView>,
    exchange: Exchange,
    parts: Parts,
) -> (next: Parts)
    requires
        is_end_step(before, index, after, out),
        is_told_by(settings, before, exchange, parts),
    ensures
        is_told_by(settings, after, with_more(exchange, seq![], seq![], out), next),
{
    lemma_merge_with_none(out);
    lemma_merge_of_two(exchange.chunks, exchange.parsed, parts.rest, out, seq![], out);
    assert(exchange.parsed + Seq::<ChoiceView>::empty() =~= exchange.parsed);
    assert(exchange.text + Seq::<char>::empty() =~= exchange.text);
    lemma_chunks_of_two_runs(parts.rest, out);
    lemma_end_goes_on(
        before,
        index,
        after,
        out,
        exchange.text,
        run_pieces(parts.rest),
        parts.early,
        parts.late,
    );
    Parts { rest: parts.rest + out, early: parts.early, late: parts.late }
}

/// A choice that has a fresh parser has the account of one that has none.
proof fn lemma_tell_fresh(settings: SettingsView, exchange: Exchange, parts: Parts)
    requires
        is_told_by(settings, no_slot(), exchange, parts),
    ensures
        is_told_by(settings, fresh_slot(settings), exchange, parts),
{
    lemma_fresh_account(settings);
    assert(said(no_slot().calls) =~= said(fresh_slot(settings).calls));
}

proof fn lemma_tell_choice(
    settings: SettingsView,
    before: StreamView,
    original: ChoiceView,
    after: StreamView,
    out: Seq<ChoiceView>,
    index: u32,
    exchange: Exchange,
    parts: Parts,
) -> (next: Parts)
    requires
        is_choice_step(settings, before, original, after, out),
        is_told_by(settings, slot_of(before, index), exchange, parts),
    ensures
        is_told_by(
            settings,
            slot_of(after, index),
            with_more(
                exchange,
                text_if_for(original, index),
                parsed_if_for(original, index),
                chunks_for(out, index),
            ),
            next,
        ),
{
    let of = original.index;
    let known = before.slots.contains_key(of);
    let slot = if known {
        before.slots[of]
    } else {
        fresh_slot(settings)
    };
    let ends = original.finish_reason is Some && !before.finished.contains(of);
    lemma_nothing_more(exchange);
    if is_already_parsed(original) {
        lemma_chunks_for_one_choice(out, of, index);
        if of == index {
            lemma_tell_parsed(settings, slot_of(before, index), exchange, parts, original);
        }
        parts
    } else if !known && is_refused_step(settings, before, original, after, out) {
        lemma_chunks_for_one_choice(out, of, index);
        if of == index {
            assert(is_set_up_refusal(settings, after.refusals.last().error));
            lemma_tell_refused(settings, exchange, parts, original)
        } else {
            parts
        }
    } else {
        assert(is_parsed_step(slot, before, original, after, out));
        law_a_terminating_chunk_reports_last(slot, original, ends, after.slots[of], out);
        lemma_chunks_for_one_choice(out, of, index);
        if of == index {
            if !known {
                lemma_tell_fresh(settings, exchange, parts);
            }
            lemma_tell_chunk(
                settings,
                slot,
                original,
                ends,
                after.slots[of],
                out,
                exchange,
                parts,
            )
        } else {
            parts
        }
    }
}

proof fn lemma_tell_choices(
    settings: SettingsView,
    before: StreamView,
    originals: Seq<ChoiceView>,
    after: StreamView,
    out: Seq<ChoiceView>,
    index: u32,
    exchange: Exchange,
    parts: Parts,
) -> (next: Parts)
    requires
        is_choices_run(settings, before, originals, after, out),
        is_told_by(settings, slot_of(before, index), exchange, parts),
    ensures
        is_told_by(
            settings,
            slot_of(after, index),
            with_more(
                exchange,
                text_for(originals, index),
                parsed_for(originals, index),
                chunks_for(out, index),
            ),
            next,
        ),
    decreases originals.len(),
{
    if originals.len() == 0 {
        lemma_nothing_more(exchange);
        parts
    } else {
        let (middle, front, last) = choose|
            middle: StreamView,
            front: Seq<ChoiceView>,
            last: Seq<ChoiceView>,
        |
            {
                &&& is_choices_run(settings, before, originals.drop_last(), middle, front)
                &&& #[trigger] is_choice_step(settings, middle, originals.last(), after, last)
                &&& #[trigger] is_followed_by(out, front, last)
            };
        let fewer = originals.drop_last();
        let original = originals.last();
        let half = lemma_tell_choices(
            settings,
            before,
            fewer,
            middle,
            front,
            index,
            exchange,
            parts,
        );
        let next = lemma_tell_choice(
            settings,
            middle,
            original,
            after,
            last,
            index,
            with_more(
                exchange,
                text_for(fewer, index),
                parsed_for(fewer, index),
                chunks_for(front, index),
            ),
            half,
        );
        lemma_chunks_for_two_runs(front, last, index);
        lemma_more_twice(
            exchange,
            text_for(fewer, index),
            parsed_for(fewer, index),
            chunks_for(front, index),
            text_if_for(original, index),
            parsed_if_for(original, index),
            chunks_for(last, index),
        );
        next
    }
}

proof fn lemma_tell_flush(
    settings: SettingsView,
    before: StreamView,
    order: Seq<u32>,
    after: StreamView,
    out: Seq<ChoiceView>,
    index: u32,
    exchange: Exchange,
    parts: Parts,
) -> (next: Parts)
    requires
        is_flush_run(before, order, after, out),
        is_told_by(settings, slot_of(before, index), exchange, parts),
    ensures
        is_told_by(
            settings,
            slot_of(after, index),
            with_more(exchange, seq![], seq![], chunks_for(out, index)),
            next,
        ),
    decreases order.len(),
{
    if order.len() == 0 {
        lemma_nothing_more(exchange);
        parts
    } else {
        let (middle, front, last) = choose|
            middle: StreamView,
            front: Seq<ChoiceView>,
            last: Seq<ChoiceView>,
        |
            {
                &&& is_flush_run(before, order.drop_last(), middle, front)
                &&& #[trigger] is_flush_step(middle, order.last(), after, last)
                &&& #[trigger] is_followed_by(out, front, last)
            };
        let of = order.last();
        let half = lemma_tell_flush(
            settings,
            before,
            order.drop_last(),
            middle,
            front,
            index,
            exchange,
            parts,
        );
        let so_far = with_more(exchange, seq![], seq![], chunks_for(front, index));
        law_an_unterminated_tool_call_is_terminated(middle.slots[of], of, after.slots[of], last);
        lemma_chunks_for_one_choice(last, of, index);
        lemma_chunks_for_two_runs(front, last, index);
        lemma_more_twice(
            exchange,
            seq![],
            seq![],
            chunks_for(front, index),
            seq![],
            seq![],
            chunks_for(last, index),
        );
        assert(Seq::<char>::empty() + Seq::<char>::empty() =~= Seq::<char>::empty());
        assert(Seq::<ChoiceView>::empty() + Seq::<ChoiceView>::empty()
            =~= Seq::<ChoiceView>::empty());
        lemma_nothing_more(so_far);
        if of == index {
            lemma_tell_end(
                settings,
                middle.slots[of],
                of,
                after.slots[of],
                last,
                so_far,
                half,
            )
        } else {
            half
        }
    }
}

/// Handing out the failures changes nothing of what is told.
proof fn lemma_tell_report(
    settings: SettingsView,
    before: StreamView,
    index: u32,
    exchange: Exchange,
    parts: Parts,
)
    requires
        is_told_by(settings, slot_of(before, index), exchange, parts),
    ensures
        is_told_by(settings, slot_of(without_failures(before), index), exchange, parts),
{
    let slot = slot_of(before, index);
    let next = slot_of(without_failures(before), index);
    assert(next.calls == slot.calls && next.progress == slot.progress);
    assert(given_up_text(next) == given_up_text(slot));
}

/// What a history says of a choice.
pub open spec fn exchange_of(
    events: Seq<StreamEvent>,
    out: Seq<ChoiceView>,
    index: u32,
) -> Exchange {
    Exchange {
        text: history_text(events, index),
        parsed: history_parsed(events, index),
        chunks: chunks_for(out, index),
    }
}

proof fn lemma_tell_history(
    settings: SettingsView,
    events: Seq<StreamEvent>,
    after: StreamView,
    out: Seq<ChoiceView>,
    index: u32,
) -> (parts: Parts)
    requires
        is_history(settings, events, after, out),
    ensures
        is_told_by(settings, slot_of(after, index), exchange_of(events, out, index), parts),
    decreases events.len(),
{
    if events.len() == 0 {
        let none = no_slot();
        let nothing: Seq<char> = seq![];
        let no_chunks: Seq<ChoiceView> = seq![];
        assert(fed(none.calls) =~= seq![]);
        assert(said(none.calls) =~= seq![]);
        assert(pieces(said(none.calls)) =~= seq![]);
        assert(history_text(events, index) =~= nothing + fed(none.calls) + nothing);
        assert(run_pieces(no_chunks) =~= text_pieces(nothing) + shown_deltas(said(none.calls))
            + text_pieces(given_up_text(none)) + text_pieces(nothing));
        Parts { rest: no_chunks, early: nothing, late: nothing }
    } else {
        let (middle, front, last) = choose|
            middle: StreamView,
            front: Seq<ChoiceView>,
            last: Seq<ChoiceView>,
        |
            {
                &&& is_history(settings, events.drop_last(), middle, front)
                &&& #[trigger] is_event_step(settings, middle, events.last(), after, last)
                &&& #[trigger] is_followed_by(out, front, last)
            };
        let fewer = events.drop_last();
        let half = lemma_tell_history(settings, fewer, middle, front, index);
        let so_far = exchange_of(fewer, front, index);
        lemma_chunks_for_two_runs(front, last, index);
        match events.last() {
            StreamEvent::Choices(originals) => lemma_tell_choices(
                settings,
                middle,
                originals,
                after,
                last,
                index,
                so_far,
                half,
            ),
            StreamEvent::Flush => {
                let order = choose|order: Seq<u32>| #[trigger]
                    is_pending(middle, order) && is_flush_run(middle, order, after, last);
                lemma_tell_flush(settings, middle, order, after, last, index, so_far, half)
            },
            StreamEvent::Report => {
                lemma_tell_report(settings, middle, index, so_far, half);
                lemma_nothing_more(so_far);
                half
            },
        }
    }
}

// --- the law ---------------------------------------------------------------------

/// The whole of a stream, for each of its choices, whatever the responses, the flushes and
/// the answers of the parsers.
///
/// The chunks of a choice that come parsed already pass as they are. A client that puts
/// its other chunks together has, in this order: the text that came before a parser could
/// be set up; everything that the parser said, in the order in which the model produced
/// it; if the parser was given up, the text recovered from it; and the text that came
/// after that. Nothing else is shown, and no text is lost: what the backend sent is the
/// first text, what the parser was fed, and the last text. There is text before only if a
/// set-up was refused, and text after only if the parser was given up.
pub proof fn law_a_stream_shows_each_choice_in_full_and_in_order(
    settings: SettingsView,
    events: Seq<StreamEvent>,
    after: StreamView,
    out: Seq<ChoiceView>,
    index: u32,
)
    requires
        is_history(settings, events, after, out),
    ensures
        exists|rest: Seq<ChoiceView>, early: Seq<char>, late: Seq<char>| #[trigger]
            is_told(
                settings,
                slot_of(after, index),
                exchange_of(events, out, index),
                rest,
                early,
                late,
            ),
{
    let parts = lemma_tell_history(settings, events, after, out, index);
    assert(is_told(
        settings,
        slot_of(after, index),
        exchange_of(events, out, index),
        parts.rest,
        parts.early,
        parts.late,
    ));
}

} // verus!
