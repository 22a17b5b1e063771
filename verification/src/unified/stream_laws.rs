//! What holds of a whole stream, whatever its parsers answer.

use vstd::prelude::*;

use super::choice::{
    advance_deltas, are_advance_calls, calls_since, chunk_deltas, fails_after, fails_after_chunk,
    fails_after_push, has_call, is_call_to, is_chunk_step, is_end_step, plain_text,
    progress_after, push_count, some_call_is_open, Advance, Progress, Slot,
};
use super::deltas::coalesced;
use super::laws::{
    law_a_terminating_chunk_reports_last, law_an_unterminated_tool_call_is_terminated,
};
use super::outside::ParserExchange;
use super::request::is_already_parsed;
use super::stream::{
    finished_with, fresh_slot, is_ascending, is_choice_step, is_choices_run, is_flush, is_flush_run,
    is_flush_step, is_followed_by, is_parsed_step, is_pending, new_stream, SettingsView, StreamView,
};
use super::types::{ChoiceView, DeltaView, FinishReason};

verus! {

// --- the calls made on a parser --------------------------------------------------

/// The parser of a choice has been used as it must be: set up once with the stream's
/// settings, then only fed, finished at most once and only when the choice is
/// terminated, and never called again once it has been reset, which is what giving it up
/// means. Some tool-call chunk has gone out exactly when some call has been opened.
pub open spec fn is_orderly_slot(settings: SettingsView, slot: Slot, terminated: bool) -> bool {
    let calls = slot.calls;
    &&& calls.len() >= 2
    &&& calls.take(2) == fresh_slot(settings).calls
    &&& forall|i: int|
        2 <= i < calls.len() ==> (#[trigger] calls[i] is Pushed || calls[i] is Finished
            || calls[i] is Reset)
    &&& forall|i: int| 0 <= i < calls.len() - 1 ==> !(#[trigger] calls[i] is Reset)
    &&& slot.progress.failed <==> calls.last() is Reset
    &&& forall|i: int, j: int|
        0 <= i < j < calls.len() ==> !(#[trigger] calls[i] is Finished
            && #[trigger] calls[j] is Finished)
    &&& forall|i: int| 0 <= i < calls.len() ==> (#[trigger] calls[i] is Finished ==> terminated)
    &&& slot.progress.tool_emitted <==> some_call_is_open(slot.progress.opened)
}

/// The parser of every choice of the stream has been used as it must be.
pub open spec fn is_orderly(settings: SettingsView, stream: StreamView) -> bool {
    forall|index: u32| #[trigger]
        stream.slots.contains_key(index) ==> is_orderly_slot(
            settings,
            stream.slots[index],
            stream.finished.contains(index),
        )
}

proof fn lemma_tool_emitted(progress: Progress, deltas: Seq<DeltaView>)
    requires
        progress.tool_emitted <==> some_call_is_open(progress.opened),
    ensures
        progress_after(progress, deltas).tool_emitted <==> some_call_is_open(
            progress_after(progress, deltas).opened,
        ),
{
    let after = progress_after(progress, deltas);
    if progress.tool_emitted {
        let i = choose|i: usize| #[trigger] progress.opened.contains(i);
        assert(after.opened.contains(i));
    }
    if has_call(deltas) {
        let j = choose|j: int| 0 <= j < deltas.len() && #[trigger] deltas[j] is ToolCall;
        let i = deltas[j]->ToolCall_0.tool_index;
        assert(is_call_to(deltas[j], i));
        assert(after.opened.contains(i));
    }
    if some_call_is_open(after.opened) {
        let i = choose|i: usize| #[trigger] after.opened.contains(i);
        if !progress.opened.contains(i) {
            let j = choose|j: int| 0 <= j < deltas.len() && is_call_to(#[trigger] deltas[j], i);
            assert(deltas[j] is ToolCall);
        }
    }
}

/// Advancing an orderly parser once leaves it orderly.
proof fn lemma_advance_is_orderly(
    settings: SettingsView,
    before: Slot,
    terminated: bool,
    advance: Advance,
    calls: Seq<ParserExchange>,
    after_terminated: bool,
)
    requires
        is_orderly_slot(settings, before, terminated),
        are_advance_calls(before.progress.failed, advance, calls),
        terminated ==> after_terminated,
        advance is End ==> !terminated && after_terminated,
    ensures
        is_orderly_slot(
            settings,
            Slot {
                progress: Progress {
                    failed: fails_after(before.progress.failed, calls),
                    ..before.progress
                },
                calls: before.calls + calls,
                failure: before.failure,
            },
            after_terminated,
        ),
{
    let all = before.calls + calls;
    let n = before.calls.len() as int;
    assert(all.take(2) =~= before.calls.take(2));
    assert forall|i: int| 0 <= i < n implies #[trigger] all[i] == before.calls[i] by {}
    assert forall|i: int| n <= i < all.len() implies #[trigger] all[i] == calls[i - n] by {}
    if before.progress.failed {
        assert(all =~= before.calls);
    } else {
        assert forall|i: int| 0 <= i < all.len() - 1 implies !(#[trigger] all[i] is Reset) by {
            if i < n {
                assert(i < n - 1 ==> !(before.calls[i] is Reset));
            }
        }
        assert(all.last() == calls.last());
        assert(calls[0] is Finished <==> advance is End);
        assert(!(calls[0] is Reset));
        assert forall|i: int| 0 <= i < all.len() implies !(#[trigger] all[i] is Finished)
            || after_terminated by {
            if i < n {
                assert(before.calls[i] is Finished ==> terminated);
            }
        }
        assert forall|i: int, j: int| 0 <= i < j < all.len() implies !(#[trigger] all[i] is Finished
            && #[trigger] all[j] is Finished) by {
            if j < n {
                assert(!(before.calls[i] is Finished && before.calls[j] is Finished));
            } else if i < n {
                assert(before.calls[i] is Finished ==> terminated);
            }
        }
        assert forall|i: int| 2 <= i < all.len() implies (#[trigger] all[i] is Pushed
            || all[i] is Finished || all[i] is Reset) by {
            if i < n {
                assert(before.calls[i] is Pushed || before.calls[i] is Finished
                    || before.calls[i] is Reset);
            }
        }
    }
}

proof fn lemma_chunk_is_orderly(
    settings: SettingsView,
    before: Slot,
    terminated: bool,
    original: ChoiceView,
    ends: bool,
    after: Slot,
    after_terminated: bool,
    out: Seq<ChoiceView>,
)
    requires
        is_orderly_slot(settings, before, terminated),
        is_chunk_step(before, original, ends, after, out),
        terminated ==> after_terminated,
        ends ==> !terminated && after_terminated,
    ensures
        is_orderly_slot(settings, after, after_terminated),
{
    let failed = before.progress.failed;
    let text = plain_text(original);
    let calls = calls_since(before.calls, after.calls);
    let pushed = push_count(failed, text, calls);
    let first = calls.take(pushed);
    let last = calls.skip(pushed);
    let middle = Slot {
        progress: Progress { failed: fails_after_push(failed, text, calls), ..before.progress },
        calls: before.calls + first,
        failure: before.failure,
    };
    if text is Some {
        lemma_advance_is_orderly(
            settings,
            before,
            terminated,
            Advance::Chunk(text->0),
            first,
            terminated,
        );
    } else {
        assert(middle =~= before);
    }
    let fed = Slot {
        progress: Progress {
            failed: fails_after_chunk(failed, text, ends, calls),
            ..before.progress
        },
        calls: after.calls,
        failure: before.failure,
    };
    assert(middle.calls + last =~= after.calls);
    if ends {
        lemma_advance_is_orderly(
            settings,
            middle,
            terminated,
            Advance::End,
            last,
            after_terminated,
        );
    } else {
        assert(fed =~= middle);
    }
    lemma_tool_emitted(fed.progress, coalesced(chunk_deltas(failed, text, ends, calls)));
}

proof fn lemma_end_is_orderly(
    settings: SettingsView,
    before: Slot,
    index: u32,
    after: Slot,
    out: Seq<ChoiceView>,
)
    requires
        is_orderly_slot(settings, before, false),
        is_end_step(before, index, after, out),
    ensures
        is_orderly_slot(settings, after, true),
{
    let failed = before.progress.failed;
    let calls = calls_since(before.calls, after.calls);
    lemma_advance_is_orderly(settings, before, false, Advance::End, calls, true);
    let fed = Progress { failed: fails_after(failed, calls), ..before.progress };
    lemma_tool_emitted(fed, coalesced(advance_deltas(failed, Advance::End, calls)));
}

proof fn lemma_fresh_slot_is_orderly(settings: SettingsView)
    ensures
        is_orderly_slot(settings, fresh_slot(settings), false),
        is_orderly_slot(settings, fresh_slot(settings), true),
{
    let slot = fresh_slot(settings);
    assert(slot.calls.take(2) =~= slot.calls);
}

proof fn lemma_choice_is_orderly(
    settings: SettingsView,
    before: StreamView,
    original: ChoiceView,
    after: StreamView,
    out: Seq<ChoiceView>,
)
    requires
        is_orderly(settings, before),
        is_choice_step(settings, before, original, after, out),
    ensures
        is_orderly(settings, after),
{
    let index = original.index;
    lemma_fresh_slot_is_orderly(settings);
    assert forall|i: u32| #[trigger] after.slots.contains_key(i) implies is_orderly_slot(
        settings,
        after.slots[i],
        after.finished.contains(i),
    ) by {
        if i != index || after.slots == before.slots {
            assert(before.slots.contains_key(i));
        } else {
            let known = before.slots.contains_key(index);
            let slot = if known {
                before.slots[index]
            } else {
                fresh_slot(settings)
            };
            let terminated = before.finished.contains(index);
            let ends = original.finish_reason is Some && !terminated;
            assert(is_parsed_step(slot, before, original, after, out));
            lemma_chunk_is_orderly(
                settings,
                slot,
                terminated,
                original,
                ends,
                after.slots[index],
                after.finished.contains(index),
                out,
            );
        }
    }
}

/// A stream that has seen nothing is orderly.
pub proof fn law_a_new_stream_is_orderly(settings: SettingsView)
    ensures
        is_orderly(settings, new_stream()),
{
}

/// Every upstream chunk keeps an orderly stream orderly: each parser is set up once with
/// the stream's settings, is finished at most once, and is not called again once it has
/// been given up.
pub proof fn law_chunks_keep_a_stream_orderly(
    settings: SettingsView,
    before: StreamView,
    originals: Seq<ChoiceView>,
    after: StreamView,
    out: Seq<ChoiceView>,
)
    requires
        is_orderly(settings, before),
        is_choices_run(settings, before, originals, after, out),
    ensures
        is_orderly(settings, after),
    decreases originals.len(),
{
    if originals.len() > 0 {
        let (middle, front, last) = choose|
            middle: StreamView,
            front: Seq<ChoiceView>,
            last: Seq<ChoiceView>,
        |
            {
                &&& is_choices_run(settings, before, originals.drop_last(), middle, front)
                &&& #[trigger] is_choice_step(settings, middle, originals.last(), after, last)
                &&& #[trigger] is_followed_by(out, front, last)
            };
        law_chunks_keep_a_stream_orderly(settings, before, originals.drop_last(), middle, front);
        lemma_choice_is_orderly(settings, middle, originals.last(), after, last);
    }
}

proof fn lemma_flush_run(
    before: StreamView,
    order: Seq<u32>,
    after: StreamView,
    out: Seq<ChoiceView>,
)
    requires
        is_flush_run(before, order, after, out),
    ensures
        forall|index: u32| #[trigger]
            after.finished.contains(index) <==> before.finished.contains(index) || order.contains(
                index,
            ),
        after.slots.dom() == before.slots.dom(),
        forall|index: u32| #[trigger]
            order.contains(index) ==> before.slots.contains_key(index),
        forall|index: u32|
            before.slots.contains_key(index) && !order.contains(index) ==> after.slots[index]
                == #[trigger] before.slots[index],
    decreases order.len(),
{
    if order.len() > 0 {
        let (middle, front, last) = choose|
            middle: StreamView,
            front: Seq<ChoiceView>,
            last: Seq<ChoiceView>,
        |
            {
                &&& is_flush_run(before, order.drop_last(), middle, front)
                &&& #[trigger] is_flush_step(middle, order.last(), after, last)
                &&& #[trigger] is_followed_by(out, front, last)
            };
        let fewer = order.drop_last();
        lemma_flush_run(before, fewer, middle, front);
        lemma_contains_last(order);
        assert(middle.slots.dom().contains(order.last()));
        assert(after.slots.dom() =~= before.slots.dom());
    } else {
        assert(forall|index: u32| !order.contains(index));
    }
}

/// The choices that are pending, as the list that a flush goes through.
proof fn lemma_pending(before: StreamView, order: Seq<u32>, k: int)
    requires
        is_pending(before, order),
        0 <= k < order.len(),
    ensures
        before.slots.contains_key(order[k]),
        !before.finished.contains(order[k]),
        !order.take(k).contains(order[k]),
{
    assert(order.contains(order[k]));
    if order.take(k).contains(order[k]) {
        let i = choose|i: int| 0 <= i < k && order.take(k)[i] == order[k];
        assert(order[i] < order[k]);
    }
}

proof fn lemma_flush_is_orderly(
    settings: SettingsView,
    before: StreamView,
    order: Seq<u32>,
    k: int,
    after: StreamView,
    out: Seq<ChoiceView>,
)
    requires
        is_orderly(settings, before),
        is_pending(before, order),
        0 <= k <= order.len(),
        is_flush_run(before, order.take(k), after, out),
    ensures
        is_orderly(settings, after),
    decreases k,
{
    if k > 0 {
        let whole = order;
        let order = order.take(k);
        let (middle, front, last) = choose|
            middle: StreamView,
            front: Seq<ChoiceView>,
            last: Seq<ChoiceView>,
        |
            {
                &&& is_flush_run(before, order.drop_last(), middle, front)
                &&& #[trigger] is_flush_step(middle, order.last(), after, last)
                &&& #[trigger] is_followed_by(out, front, last)
            };
        assert(order.drop_last() =~= whole.take(k - 1));
        let index = order.last();
        lemma_flush_is_orderly(settings, before, whole, k - 1, middle, front);
        lemma_flush_run(before, order.drop_last(), middle, front);
        lemma_pending(before, whole, k - 1);
        assert(!middle.finished.contains(index));
        lemma_end_is_orderly(settings, middle.slots[index], index, after.slots[index], last);
        assert forall|i: u32| #[trigger] after.slots.contains_key(i) implies is_orderly_slot(
            settings,
            after.slots[i],
            after.finished.contains(i),
        ) by {
            assert(middle.slots.contains_key(i));
        }
    }
}

/// The end of a stream, or a usage chunk, keeps an orderly stream orderly.
pub proof fn law_a_flush_keeps_a_stream_orderly(
    settings: SettingsView,
    before: StreamView,
    after: StreamView,
    out: Seq<ChoiceView>,
)
    requires
        is_orderly(settings, before),
        is_flush(before, after, out),
    ensures
        is_orderly(settings, after),
{
    let order = choose|order: Seq<u32>| #[trigger]
        is_pending(before, order) && is_flush_run(before, order, after, out);
    assert(order.take(order.len() as int) =~= order);
    lemma_flush_is_orderly(settings, before, order, order.len() as int, after, out);
}

// --- the end of a stream ---------------------------------------------------------

/// A flush terminates every choice that has not been terminated, and touches no other.
pub proof fn law_a_flush_terminates_every_open_choice(
    before: StreamView,
    after: StreamView,
    out: Seq<ChoiceView>,
)
    requires
        is_flush(before, after, out),
    ensures
        forall|index: u32| #[trigger]
            after.finished.contains(index) <==> before.finished.contains(index)
                || before.slots.contains_key(index),
        after.slots.dom() == before.slots.dom(),
        forall|index: u32|
            before.slots.contains_key(index) && before.finished.contains(index)
                ==> after.slots[index] == #[trigger] before.slots[index],
{
    let order = choose|order: Seq<u32>| #[trigger]
        is_pending(before, order) && is_flush_run(before, order, after, out);
    lemma_flush_run(before, order, after, out);
    assert forall|index: u32| #[trigger]
        after.finished.contains(index) <==> before.finished.contains(index)
            || before.slots.contains_key(index) by {
        assert(order.contains(index) <==> before.slots.contains_key(index)
            && !before.finished.contains(index));
    }
    assert forall|index: u32|
        before.slots.contains_key(index) && before.finished.contains(
            index,
        ) implies after.slots[index] == #[trigger] before.slots[index] by {
        assert(!order.contains(index));
    }
}

/// No choice is ended twice: after a flush, another one sends nothing and changes
/// nothing.
pub proof fn law_a_second_flush_sends_nothing(
    before: StreamView,
    middle: StreamView,
    out: Seq<ChoiceView>,
    after: StreamView,
    more: Seq<ChoiceView>,
)
    requires
        is_flush(before, middle, out),
        is_flush(middle, after, more),
    ensures
        after == middle,
        more == Seq::<ChoiceView>::empty(),
{
    law_a_flush_terminates_every_open_choice(before, middle, out);
    let order = choose|order: Seq<u32>| #[trigger]
        is_pending(middle, order) && is_flush_run(middle, order, after, more);
    if order.len() > 0 {
        assert(order.contains(order[0]));
        assert(middle.slots.dom().contains(order[0]));
        assert(middle.finished.contains(order[0]));
    }
}

pub(crate) proof fn lemma_flush_run_order(
    before: StreamView,
    order: Seq<u32>,
    after: StreamView,
    out: Seq<ChoiceView>,
)
    requires
        is_ascending(order),
        is_flush_run(before, order, after, out),
    ensures
        forall|i: int, j: int| 0 <= i <= j < out.len() ==> out[i].index <= out[j].index,
        forall|i: int| 0 <= i < out.len() ==> order.contains((#[trigger] out[i]).index),
    decreases order.len(),
{
    if order.len() > 0 {
        let (middle, front, last) = choose|
            middle: StreamView,
            front: Seq<ChoiceView>,
            last: Seq<ChoiceView>,
        |
            {
                &&& is_flush_run(before, order.drop_last(), middle, front)
                &&& #[trigger] is_flush_step(middle, order.last(), after, last)
                &&& #[trigger] is_followed_by(out, front, last)
            };
        let fewer = order.drop_last();
        let index = order.last();
        assert forall|i: int, j: int| 0 <= i < j < fewer.len() implies fewer[i] < fewer[j] by {
            assert(order[i] < order[j]);
        }
        lemma_flush_run_order(before, fewer, middle, front);
        lemma_contains_last(order);
        law_an_unterminated_tool_call_is_terminated(
            middle.slots[index],
            index,
            after.slots[index],
            last,
        );
        assert forall|i: int| 0 <= i < out.len() implies order.contains(
            (#[trigger] out[i]).index,
        ) && out[i].index <= index by {
            if i < front.len() {
                assert(fewer.contains(front[i].index));
                let k = choose|k: int| 0 <= k < fewer.len() && fewer[k] == front[i].index;
                assert(order[k] < order[order.len() - 1]);
            } else {
                assert(out[i] == last[i - front.len()]);
            }
        }
        assert forall|i: int, j: int| 0 <= i <= j < out.len() implies out[i].index
            <= out[j].index by {
            if j < front.len() {
                assert(front[i].index <= front[j].index);
            } else {
                assert(out[j] == last[j - front.len()]);
            }
        }
    }
}

/// A flush goes through the choices in index order, and sends only chunks of choices that
/// had not been terminated.
pub proof fn law_a_flush_goes_in_index_order(
    before: StreamView,
    after: StreamView,
    out: Seq<ChoiceView>,
)
    requires
        is_flush(before, after, out),
    ensures
        forall|i: int, j: int| 0 <= i <= j < out.len() ==> out[i].index <= out[j].index,
        forall|i: int|
            0 <= i < out.len() ==> before.slots.contains_key((#[trigger] out[i]).index)
                && !before.finished.contains(out[i].index),
{
    let order = choose|order: Seq<u32>| #[trigger]
        is_pending(before, order) && is_flush_run(before, order, after, out);
    lemma_flush_run_order(before, order, after, out);
    assert forall|i: int| 0 <= i < out.len() implies before.slots.contains_key(
        (#[trigger] out[i]).index,
    ) && !before.finished.contains(out[i].index) by {
        assert(order.contains(out[i].index));
    }
}

proof fn lemma_flush_run_terminates(
    before: StreamView,
    order: Seq<u32>,
    after: StreamView,
    out: Seq<ChoiceView>,
    index: u32,
) -> (at: int)
    requires
        is_ascending(order),
        is_flush_run(before, order, after, out),
        order.contains(index),
        after.slots[index].progress.tool_emitted,
    ensures
        0 <= at < out.len(),
        out[at].index == index,
        out[at].finish_reason == Some(FinishReason::ToolCalls),
    decreases order.len(),
{
    let k = choose|k: int| 0 <= k < order.len() && order[k] == index;
    let (middle, front, last) = choose|
        middle: StreamView,
        front: Seq<ChoiceView>,
        last: Seq<ChoiceView>,
    |
        {
            &&& is_flush_run(before, order.drop_last(), middle, front)
            &&& #[trigger] is_flush_step(middle, order.last(), after, last)
            &&& #[trigger] is_followed_by(out, front, last)
        };
    let fewer = order.drop_last();
    if k == order.len() - 1 {
        law_an_unterminated_tool_call_is_terminated(
            middle.slots[index],
            index,
            after.slots[index],
            last,
        );
        assert(out.last() == last.last());
        out.len() - 1
    } else {
        assert(order[k] < order[order.len() - 1]);
        assert(fewer[k] == index);
        assert(fewer.contains(index));
        assert forall|i: int, j: int| 0 <= i < j < fewer.len() implies fewer[i] < fewer[j] by {
            assert(order[i] < order[j]);
        }
        let at = lemma_flush_run_terminates(before, fewer, middle, front, index);
        assert(out[at] == front[at]);
        at
    }
}

/// A strict client never waits in vain: when a stream ends, each choice that has emitted
/// tool calls and was never terminated gets a chunk that terminates it with `ToolCalls`.
pub proof fn law_no_tool_call_is_left_open(
    before: StreamView,
    after: StreamView,
    out: Seq<ChoiceView>,
    index: u32,
)
    requires
        is_flush(before, after, out),
        before.slots.contains_key(index),
        !before.finished.contains(index),
        after.slots[index].progress.tool_emitted,
    ensures
        exists|at: int|
            0 <= at < out.len() && (#[trigger] out[at]).index == index && out[at].finish_reason
                == Some(FinishReason::ToolCalls),
{
    let order = choose|order: Seq<u32>| #[trigger]
        is_pending(before, order) && is_flush_run(before, order, after, out);
    assert(order.contains(index));
    let at = lemma_flush_run_terminates(before, order, after, out, index);
    assert(out[at].index == index);
}

// --- choices side by side --------------------------------------------------------

/// The choices of a stream do not disturb each other: an upstream chunk changes nothing
/// of a choice that it does not hold, and becomes chunks of its own choices only. A
/// terminated choice stays terminated.
pub proof fn law_choices_are_independent(
    settings: SettingsView,
    before: StreamView,
    originals: Seq<ChoiceView>,
    after: StreamView,
    out: Seq<ChoiceView>,
)
    requires
        is_choices_run(settings, before, originals, after, out),
    ensures
        forall|index: u32|
            !holds_choice(originals, index) ==> #[trigger] is_untouched(before, after, index),
        forall|k: int|
            0 <= k < out.len() ==> #[trigger] holds_choice(originals, out[k].index),
        before.finished.subset_of(after.finished),
    decreases originals.len(),
{
    if originals.len() > 0 {
        let (middle, front, last) = choose|
            middle: StreamView,
            front: Seq<ChoiceView>,
            last: Seq<ChoiceView>,
        |
            {
                &&& is_choices_run(settings, before, originals.drop_last(), middle, front)
                &&& #[trigger] is_choice_step(settings, middle, originals.last(), after, last)
                &&& #[trigger] is_followed_by(out, front, last)
            };
        let fewer = originals.drop_last();
        let original = originals.last();
        law_choices_are_independent(settings, before, fewer, middle, front);
        lemma_choice_step_index(settings, middle, original, after, last);
        assert forall|index: u32| holds_choice(fewer, index) implies holds_choice(
            originals,
            index,
        ) by {
            let j = choose|j: int| 0 <= j < fewer.len() && (#[trigger] fewer[j]).index == index;
            assert(originals[j].index == index);
        }
        assert(originals[originals.len() - 1].index == original.index);
        assert(holds_choice(originals, original.index));
        assert forall|k: int| 0 <= k < out.len() implies #[trigger] holds_choice(
            originals,
            out[k].index,
        ) by {
            if k < front.len() {
                assert(holds_choice(fewer, front[k].index));
            } else {
                assert(out[k] == last[k - front.len()]);
            }
        }
        assert forall|index: u32| !holds_choice(originals, index) implies #[trigger] is_untouched(
            before,
            after,
            index,
        ) by {
            assert(index != original.index);
            assert(!holds_choice(fewer, index));
            assert(is_untouched(before, middle, index));
        }
    }
}

/// Choice `j` of an upstream chunk passes as it is, between what the choices before it and
/// those after it become, and nothing changes but that it may terminate its choice.
pub open spec fn passes_untouched(
    settings: SettingsView,
    before: StreamView,
    originals: Seq<ChoiceView>,
    j: int,
    after: StreamView,
    out: Seq<ChoiceView>,
) -> bool {
    exists|middle: StreamView, next: StreamView, front: Seq<ChoiceView>, rest: Seq<ChoiceView>|
        {
            &&& #[trigger] is_choices_run(settings, before, originals.take(j), middle, front)
            &&& next == (StreamView {
                finished: finished_with(middle.finished, originals[j]),
                ..middle
            })
            &&& #[trigger] is_choices_run(settings, next, originals.skip(j + 1), after, rest)
            &&& out == front + seq![originals[j]] + rest
        }
}

pub(crate) proof fn lemma_run_splits(
    settings: SettingsView,
    before: StreamView,
    originals: Seq<ChoiceView>,
    j: int,
    after: StreamView,
    out: Seq<ChoiceView>,
) -> (parts: (StreamView, Seq<ChoiceView>, Seq<ChoiceView>))
    requires
        is_choices_run(settings, before, originals, after, out),
        0 <= j <= originals.len(),
    ensures
        is_choices_run(settings, before, originals.take(j), parts.0, parts.1),
        is_choices_run(settings, parts.0, originals.skip(j), after, parts.2),
        out == parts.1 + parts.2,
    decreases originals.len(),
{
    if j == originals.len() {
        assert(originals.take(j) =~= originals);
        assert(originals.skip(j) =~= seq![]);
        assert(out + Seq::<ChoiceView>::empty() =~= out);
        (after, out, Seq::<ChoiceView>::empty())
    } else {
        let (middle, front, last) = choose|
            middle: StreamView,
            front: Seq<ChoiceView>,
            last: Seq<ChoiceView>,
        |
            {
                &&& is_choices_run(settings, before, originals.drop_last(), middle, front)
                &&& #[trigger] is_choice_step(settings, middle, originals.last(), after, last)
                &&& #[trigger] is_followed_by(out, front, last)
            };
        let fewer = originals.drop_last();
        let parts = lemma_run_splits(settings, before, fewer, j, middle, front);
        let rest = parts.2 + last;
        assert(fewer.take(j) =~= originals.take(j));
        let tail = originals.skip(j);
        assert(tail.drop_last() =~= fewer.skip(j));
        assert(tail.last() == originals.last());
        assert(is_choice_step(settings, middle, tail.last(), after, last));
        assert(is_followed_by(rest, parts.2, last));
        assert(out =~= parts.1 + rest);
        (parts.0, parts.1, rest)
    }
}

/// What something upstream has parsed already is not parsed again, whatever else comes
/// with it: it passes as it is, in its place, and no parser is called for it.
pub proof fn law_a_parsed_choice_passes_untouched(
    settings: SettingsView,
    before: StreamView,
    originals: Seq<ChoiceView>,
    j: int,
    after: StreamView,
    out: Seq<ChoiceView>,
)
    requires
        is_choices_run(settings, before, originals, after, out),
        0 <= j < originals.len(),
        is_already_parsed(originals[j]),
    ensures
        passes_untouched(settings, before, originals, j, after, out),
{
    let (next, upto, rest) = lemma_run_splits(settings, before, originals, j + 1, after, out);
    let head = originals.take(j + 1);
    let (middle, front, last) = choose|
        middle: StreamView,
        front: Seq<ChoiceView>,
        last: Seq<ChoiceView>,
    |
        {
            &&& is_choices_run(settings, before, head.drop_last(), middle, front)
            &&& #[trigger] is_choice_step(settings, middle, head.last(), next, last)
            &&& #[trigger] is_followed_by(upto, front, last)
        };
    assert(head.drop_last() =~= originals.take(j));
    assert(head.last() == originals[j]);
    assert(next =~= StreamView {
        finished: finished_with(middle.finished, originals[j]),
        ..middle
    });
    assert(is_choices_run(settings, before, originals.take(j), middle, front));
    assert(out =~= front + seq![originals[j]] + rest);
}

/// An upstream chunk of which everything has been parsed already passes as it is.
pub proof fn law_parsed_choices_pass_untouched(
    settings: SettingsView,
    before: StreamView,
    originals: Seq<ChoiceView>,
    after: StreamView,
    out: Seq<ChoiceView>,
)
    requires
        is_choices_run(settings, before, originals, after, out),
        forall|j: int|
            0 <= j < originals.len() ==> is_already_parsed(#[trigger] originals[j]),
    ensures
        out == originals,
        after.slots == before.slots,
    decreases originals.len(),
{
    if originals.len() > 0 {
        let (middle, front, last) = choose|
            middle: StreamView,
            front: Seq<ChoiceView>,
            last: Seq<ChoiceView>,
        |
            {
                &&& is_choices_run(settings, before, originals.drop_last(), middle, front)
                &&& #[trigger] is_choice_step(settings, middle, originals.last(), after, last)
                &&& #[trigger] is_followed_by(out, front, last)
            };
        let fewer = originals.drop_last();
        assert forall|j: int| 0 <= j < fewer.len() implies is_already_parsed(
            #[trigger] fewer[j],
        ) by {
            assert(fewer[j] == originals[j]);
        }
        law_parsed_choices_pass_untouched(settings, before, fewer, middle, front);
        assert(originals.last() == originals[originals.len() - 1]);
        assert(out =~= originals);
    } else {
        assert(out =~= originals);
    }
}

/// Nothing has changed of this choice.
pub open spec fn is_untouched(before: StreamView, after: StreamView, index: u32) -> bool {
    &&& after.finished.contains(index) == before.finished.contains(index)
    &&& after.slots.contains_key(index) == before.slots.contains_key(index)
    &&& before.slots.contains_key(index) ==> after.slots[index] == before.slots[index]
}

/// Some choice of an upstream chunk has this index.
pub open spec fn holds_choice(originals: Seq<ChoiceView>, index: u32) -> bool {
    exists|j: int| 0 <= j < originals.len() && (#[trigger] originals[j]).index == index
}

proof fn lemma_choice_step_index(
    settings: SettingsView,
    before: StreamView,
    original: ChoiceView,
    after: StreamView,
    out: Seq<ChoiceView>,
)
    requires
        is_choice_step(settings, before, original, after, out),
    ensures
        forall|k: int| 0 <= k < out.len() ==> (#[trigger] out[k]).index == original.index,
{
    let index = original.index;
    if !is_already_parsed(original) {
        let slot = if before.slots.contains_key(index) {
            before.slots[index]
        } else {
            fresh_slot(settings)
        };
        let ends = original.finish_reason is Some && !before.finished.contains(index);
        if is_parsed_step(slot, before, original, after, out) {
            law_a_terminating_chunk_reports_last(slot, original, ends, after.slots[index], out);
        }
    }
}

proof fn lemma_contains_last(order: Seq<u32>)
    requires
        order.len() > 0,
    ensures
        forall|i: u32| #[trigger]
            order.contains(i) <==> order.drop_last().contains(i) || i == order.last(),
{
    let fewer = order.drop_last();
    assert forall|i: u32| #[trigger] order.contains(i) <==> fewer.contains(i) || i
        == order.last() by {
        if fewer.contains(i) {
            let k = choose|k: int| 0 <= k < fewer.len() && fewer[k] == i;
            assert(order[k] == i);
        }
        if i == order.last() {
            assert(order[order.len() - 1] == i);
        }
        if order.contains(i) && i != order.last() {
            let k = choose|k: int| 0 <= k < order.len() && order[k] == i;
            assert(fewer[k] == i);
        }
    }
}

} // verus!
