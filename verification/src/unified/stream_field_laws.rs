//! What the contracts of a stream come to, field by field.

use vstd::prelude::*;

use super::choice::{
    at_least_one, calls_since, chunk_deltas, fails_after_chunk, is_chunk_step, is_end_step,
    is_rewriting, plain_text, Progress, Slot,
};
use super::field_laws::law_what_a_chunk_asks_of_its_parser;
use super::laws::{
    law_an_unterminated_tool_call_is_terminated, law_role_rides_first_and_reason_last,
};
use super::outside::refusal;
use super::stream::{
    are_bare_deliveries, are_deliveries, fresh_slot, is_ascending, is_choice_step, is_choices_run,
    is_delivery, is_flush, is_flush_run, is_flush_step, is_followed_by, is_listing, is_parsed_step,
    is_pending, is_set_up_refusal, kept_failures, new_stream, without_failures, Annotated,
    SettingsView, StreamView,
};
use super::stream_laws::{
    law_a_flush_terminates_every_open_choice, lemma_flush_run_order, lemma_run_splits,
};
use super::types::ChoiceView;
use super::UnifiedParserError;

verus! {

// --- one choice of an upstream chunk ---------------------------------------------

/// The chunks that a parsed chunk becomes have no log probabilities: their text no longer
/// lines up with the tokens of the backend.
pub proof fn law_rewritten_chunks_have_no_log_probabilities(
    before: Slot,
    original: ChoiceView,
    ends: bool,
    after: Slot,
    out: Seq<ChoiceView>,
    k: int,
)
    requires
        is_chunk_step(before, original, ends, after, out),
        0 <= k < out.len(),
    ensures
        out[k].logprobs is None,
        out[k].index == original.index,
        k > 0 ==> out[k].role is None && out[k].refusal is None,
        k < out.len() - 1 ==> out[k].finish_reason is None,
        out[0].role == original.role && out[0].refusal == original.refusal,
        out.last().finish_reason is Some <==> original.finish_reason is Some,
{
    let failed = before.progress.failed;
    let text = plain_text(original);
    let calls = calls_since(before.calls, after.calls);
    let deltas = chunk_deltas(failed, text, ends, calls);
    let fed = Progress { failed: fails_after_chunk(failed, text, ends, calls), ..before.progress };
    let chunks = choose|chunks: Seq<ChoiceView>| #[trigger]
        is_rewriting(fed, original, deltas, original.finish_reason, chunks) && out == at_least_one(
            chunks,
            original.index,
        );
    law_role_rides_first_and_reason_last(fed, original, deltas, original.finish_reason, chunks);
}

/// A choice that has plain text or no content, no tool calls and no reasoning is always
/// parsed, whatever its role, its refusal, its log probabilities or its terminating reason.
/// It goes to the parser of its choice, or to a fresh one: unless that has been given up,
/// the text is the next thing it is given. The choice is ended when it has a terminating
/// reason and had none before. Only when no parser can be set up for it does it pass as it
/// is, and then the refusal is kept. No other choice is touched.
pub proof fn law_plain_choices_are_parsed(
    settings: SettingsView,
    before: StreamView,
    original: ChoiceView,
    after: StreamView,
    out: Seq<ChoiceView>,
)
    requires
        is_choice_step(settings, before, original, after, out),
        original.content is None || original.content->0 is Text,
        original.tool_calls is None,
        original.reasoning_content is None,
    ensures
        ({
            let index = original.index;
            let known = before.slots.contains_key(index);
            let start = if known {
                before.slots[index]
            } else {
                fresh_slot(settings)
            };
            let was_set_up_refused = {
                &&& !known
                &&& out == seq![original]
                &&& after.slots == before.slots
                &&& after.finished == before.finished
                &&& after.refusals.len() == before.refusals.len() + 1
                &&& after.refusals.drop_last() == before.refusals
                &&& after.refusals.last().choice == index
                &&& after.refusals.last().error is Parser
            };
            let was_parsed = {
                let next = after.slots[index];
                let n = start.calls.len() as int;
                &&& after.slots.contains_key(index)
                &&& after.slots.remove(index) == before.slots.remove(index)
                &&& after.refusals == before.refusals
                &&& forall|i: u32| #[trigger]
                    after.finished.contains(i) <==> before.finished.contains(i) || (i == index
                        && original.finish_reason is Some)
                &&& is_chunk_step(
                    start,
                    original,
                    original.finish_reason is Some && !before.finished.contains(index),
                    next,
                    out,
                )
                &&& next.calls.take(n) == start.calls
                &&& !start.progress.failed && original.content is Some ==> next.calls.len() > n
                    && next.calls[n] is Pushed && next.calls[n]->chunk
                    == original.content->0->Text_0
                &&& out.len() > 0
                &&& forall|k: int| 0 <= k < out.len() ==> (#[trigger] out[k]).logprobs is None
            };
            was_set_up_refused || was_parsed
        }),
{
    let index = original.index;
    let known = before.slots.contains_key(index);
    let start = if known {
        before.slots[index]
    } else {
        fresh_slot(settings)
    };
    let ends = original.finish_reason is Some && !before.finished.contains(index);
    if is_parsed_step(start, before, original, after, out) {
        let next = after.slots[index];
        law_what_a_chunk_asks_of_its_parser(start, original, ends, next, out);
        assert(out.len() > 0);
        assert forall|k: int| 0 <= k < out.len() implies (#[trigger] out[k]).logprobs is None by {
            law_rewritten_chunks_have_no_log_probabilities(start, original, ends, next, out, k);
        }
        assert(after.slots.remove(index) =~= before.slots.remove(index));
    } else {
        assert(after.refusals.drop_last() =~= before.refusals);
    }
}

/// A choice that has content in parts, tool calls or reasoning passes as it is. No parser
/// is asked anything, and the choice is terminated if it has a terminating reason.
pub proof fn law_choices_that_hold_parsed_content_pass(
    settings: SettingsView,
    before: StreamView,
    original: ChoiceView,
    after: StreamView,
    out: Seq<ChoiceView>,
)
    requires
        is_choice_step(settings, before, original, after, out),
        (original.content is Some && original.content->0 is Parts) || original.tool_calls is Some
            || original.reasoning_content is Some,
    ensures
        out == seq![original],
        after.slots == before.slots,
        after.refusals == before.refusals,
        forall|i: u32| #[trigger]
            after.finished.contains(i) <==> before.finished.contains(i) || (i == original.index
                && original.finish_reason is Some),
{
}

/// A new stream has no choice, none is terminated and nothing was refused. A fresh choice
/// has sent nothing; its parser was made for the stream's family and tools, and accepted
/// the stream's channel and mode.
pub proof fn law_a_stream_and_its_choices_start_fresh(settings: SettingsView, index: u32)
    ensures
        !new_stream().slots.contains_key(index),
        !new_stream().finished.contains(index),
        new_stream().refusals.len() == 0,
        ({
            let fresh = fresh_slot(settings);
            &&& fresh.calls.len() == 2
            &&& fresh.calls[0] is Created && fresh.calls[0]->family == settings.family
                && fresh.calls[0]->tools == settings.tools
            &&& fresh.calls[1] is Initialized && fresh.calls[1]->prefill == settings.prefill
                && fresh.calls[1]->mode == settings.mode && fresh.calls[1]->accepted
            &&& fresh.failure is None
            &&& !fresh.progress.failed && !fresh.progress.tool_emitted
            &&& forall|tool_index: usize| !#[trigger] fresh.progress.opened.contains(tool_index)
        }),
{
}

/// A kept refusal is that of a parser made for the stream's family and tools, or of its
/// start with the stream's channel and mode.
pub proof fn law_a_kept_refusal_is_that_of_the_streams_own_parser(
    settings: SettingsView,
    error: UnifiedParserError,
)
    requires
        is_set_up_refusal(settings, error),
    ensures
        error is Parser,
        ({
            let calls = refusal(error->Parser_0);
            &&& 1 <= calls.len() <= 2
            &&& calls[0] is Created && calls[0]->family == settings.family && calls[0]->tools
                == settings.tools
            &&& calls.len() == 2 ==> calls[1] is Initialized && calls[1]->prefill
                == settings.prefill && calls[1]->mode == settings.mode && !calls[1]->accepted
        }),
{
}

// --- all choices of an upstream chunk --------------------------------------------

/// Choice `j` of an upstream chunk is rewritten in its turn: after those before it, on
/// what they left, and before those after it; what goes out is what they become, in that
/// order.
pub open spec fn has_its_turn(
    settings: SettingsView,
    before: StreamView,
    originals: Seq<ChoiceView>,
    j: int,
    after: StreamView,
    out: Seq<ChoiceView>,
) -> bool {
    exists|
        middle: StreamView,
        next: StreamView,
        front: Seq<ChoiceView>,
        own: Seq<ChoiceView>,
        rest: Seq<ChoiceView>,
    |
        {
            &&& #[trigger] is_choices_run(settings, before, originals.take(j), middle, front)
            &&& #[trigger] is_choice_step(settings, middle, originals[j], next, own)
            &&& #[trigger] is_choices_run(settings, next, originals.skip(j + 1), after, rest)
            &&& out == front + own + rest
        }
}

/// Every choice of an upstream chunk has its turn, and without choices nothing happens.
pub proof fn law_every_choice_has_its_turn(
    settings: SettingsView,
    before: StreamView,
    originals: Seq<ChoiceView>,
    j: int,
    after: StreamView,
    out: Seq<ChoiceView>,
)
    requires
        is_choices_run(settings, before, originals, after, out),
    ensures
        0 <= j < originals.len() ==> has_its_turn(settings, before, originals, j, after, out),
        originals.len() == 0 ==> after == before && out.len() == 0,
{
    if 0 <= j < originals.len() {
        let (next, upto, rest) = lemma_run_splits(settings, before, originals, j + 1, after, out);
        let head = originals.take(j + 1);
        let (middle, front, own) = choose|
            middle: StreamView,
            front: Seq<ChoiceView>,
            own: Seq<ChoiceView>,
        |
            {
                &&& is_choices_run(settings, before, head.drop_last(), middle, front)
                &&& #[trigger] is_choice_step(settings, middle, head.last(), next, own)
                &&& #[trigger] is_followed_by(upto, front, own)
            };
        assert(head.drop_last() =~= originals.take(j));
        assert(head.last() == originals[j]);
        assert(is_choices_run(settings, before, originals.take(j), middle, front));
        assert(is_choice_step(settings, middle, originals[j], next, own));
        assert(is_choices_run(settings, next, originals.skip(j + 1), after, rest));
        assert(out == front + own + rest);
    }
}

// --- flushes ---------------------------------------------------------------------

/// The choice is ended by a stretch of what goes out.
pub open spec fn is_ended_in(
    before: Slot,
    index: u32,
    after: Slot,
    out: Seq<ChoiceView>,
    from: int,
    to: int,
) -> bool {
    0 <= from <= to <= out.len() && is_end_step(before, index, after, out.subrange(from, to))
}

proof fn lemma_ended_in_run(
    before: StreamView,
    order: Seq<u32>,
    after: StreamView,
    out: Seq<ChoiceView>,
    k: int,
) -> (at: (int, int))
    requires
        is_flush_run(before, order, after, out),
        0 <= k < order.len(),
        is_ascending(order),
    ensures
        before.slots.contains_key(order[k]),
        is_ended_in(
            before.slots[order[k]],
            order[k],
            after.slots[order[k]],
            out,
            at.0,
            at.1,
        ),
        forall|i: int|
            0 <= i < out.len() ==> ((#[trigger] out[i]).index == order[k] <==> at.0 <= i < at.1),
    decreases order.len(),
{
    let (middle, front, last) = choose|
        middle: StreamView,
        front: Seq<ChoiceView>,
        last: Seq<ChoiceView>,
    |
        {
            &&& is_flush_run(before, order.drop_last(), middle, front)
            &&& #[trigger] is_flush_step(middle, order.last(), after, last)
            &&& #[trigger] is_followed_by(out, front, last)
        };
    let fewer = order.drop_last();
    let index = order.last();
    assert forall|i: int, j: int| 0 <= i < j < fewer.len() implies fewer[i] < fewer[j] by {
        assert(order[i] < order[j]);
    }
    lemma_flush_run_order(before, fewer, middle, front);
    law_an_unterminated_tool_call_is_terminated(
        middle.slots[index],
        index,
        after.slots[index],
        last,
    );
    assert forall|i: int| 0 <= i < front.len() implies (#[trigger] front[i]).index != index by {
        assert(fewer.contains(front[i].index));
        let j = choose|j: int| 0 <= j < fewer.len() && fewer[j] == front[i].index;
        assert(order[j] < order[order.len() - 1]);
    }
    if k == order.len() - 1 {
        assert forall|i: int| 0 <= i < fewer.len() implies #[trigger] fewer[i] != index by {
            assert(order[i] < order[k]);
        }
        lemma_untouched_by_run(before, fewer, middle, front, index);
        assert(out.subrange(front.len() as int, out.len() as int) =~= last);
        assert forall|i: int| 0 <= i < out.len() implies ((#[trigger] out[i]).index == index <==> (
        front.len() as int) <= i) by {
            if i < front.len() {
                assert(out[i] == front[i]);
            } else {
                assert(out[i] == last[i - front.len()]);
            }
        }
        (front.len() as int, out.len() as int)
    } else {
        let at = lemma_ended_in_run(before, fewer, middle, front, k);
        assert(order[k] < order[order.len() - 1]);
        assert(fewer[k] == order[k]);
        assert(out.subrange(at.0, at.1) =~= front.subrange(at.0, at.1));
        assert forall|i: int| 0 <= i < out.len() implies ((#[trigger] out[i]).index == order[k]
            <==> at.0 <= i < at.1) by {
            if i < front.len() {
                assert(out[i] == front[i]);
            } else {
                assert(out[i] == last[i - front.len()]);
            }
        }
        at
    }
}

proof fn lemma_untouched_by_run(
    before: StreamView,
    order: Seq<u32>,
    after: StreamView,
    out: Seq<ChoiceView>,
    index: u32,
)
    requires
        is_flush_run(before, order, after, out),
        forall|i: int| 0 <= i < order.len() ==> #[trigger] order[i] != index,
    ensures
        after.slots.contains_key(index) == before.slots.contains_key(index),
        after.slots.contains_key(index) ==> after.slots[index] == before.slots[index],
        after.refusals == before.refusals,
    decreases order.len(),
{
    if order.len() > 0 {
        let (middle, front, last) = choose|
            middle: StreamView,
            front: Seq<ChoiceView>,
            last: Seq<ChoiceView>,
        |
            {
                &&& is_flush_run(before, order.drop_last(), middle, front)
                &&& #[trigger] is_flush_step(middle, order.last(), after, last)
                &&& #[trigger] is_followed_by(out, front, last)
            };
        let fewer = order.drop_last();
        assert forall|i: int| 0 <= i < fewer.len() implies #[trigger] fewer[i] != index by {
            assert(fewer[i] == order[i]);
        }
        lemma_untouched_by_run(before, fewer, middle, front, index);
        assert(order.last() == order[order.len() - 1]);
    }
}

/// A flush ends every choice that has a parser and was not terminated, once and from where
/// the choice stood: in a stretch of what goes out that holds all chunks of the choice and
/// no others.
pub proof fn law_a_flush_ends_each_open_choice(
    before: StreamView,
    after: StreamView,
    out: Seq<ChoiceView>,
    index: u32,
)
    requires
        is_flush(before, after, out),
        before.slots.contains_key(index),
        !before.finished.contains(index),
    ensures
        after.finished.contains(index),
        exists|from: int, to: int|
            {
                &&& #[trigger] is_ended_in(
                    before.slots[index],
                    index,
                    after.slots[index],
                    out,
                    from,
                    to,
                )
                &&& forall|i: int|
                    0 <= i < out.len() ==> ((#[trigger] out[i]).index == index <==> from <= i < to)
            },
{
    law_a_flush_terminates_every_open_choice(before, after, out);
    let order = choose|order: Seq<u32>| #[trigger]
        is_pending(before, order) && is_flush_run(before, order, after, out);
    assert(order.contains(index));
    let k = choose|k: int| 0 <= k < order.len() && order[k] == index;
    let at = lemma_ended_in_run(before, order, after, out, k);
    assert(is_ended_in(before.slots[index], index, after.slots[index], out, at.0, at.1));
}

/// The choices that are open, listed: each once, in order of their index, those that have
/// a parser and were not terminated, and no others.
pub proof fn law_pending_choices_are_open_and_in_order(
    stream: StreamView,
    order: Seq<u32>,
    index: u32,
    i: int,
    j: int,
)
    requires
        is_pending(stream, order),
    ensures
        0 <= i < j < order.len() ==> order[i] < order[j],
        order.contains(index) <==> stream.slots.contains_key(index) && !stream.finished.contains(
            index,
        ),
{
}

// --- responses -------------------------------------------------------------------

/// Of the responses that an upstream response becomes, each holds one choice, in order,
/// and the envelope of the upstream response. The last holds its accounting and its
/// annotation, and no other holds either.
pub proof fn law_only_the_last_response_reports<E: Clone, M, A>(
    responses: Seq<Annotated<E, M, A>>,
    envelope: E,
    choices: Seq<ChoiceView>,
    accounting: Option<M>,
    annotation: Option<A>,
    k: int,
)
    requires
        are_deliveries(responses, envelope, choices, accounting, annotation),
        0 <= k < choices.len(),
    ensures
        responses.len() == choices.len(),
        responses[k].data is Some,
        cloned(envelope, responses[k].data->0.envelope),
        responses[k].data->0.choices.deep_view().len() == 1,
        responses[k].data->0.choices.deep_view()[0] == choices[k],
        k < choices.len() - 1 ==> responses[k].data->0.accounting is None
            && responses[k].annotation is None,
        k == choices.len() - 1 ==> responses[k].data->0.accounting == accounting
            && responses[k].annotation == annotation,
{
    assert(is_delivery(
        responses[k],
        envelope,
        choices[k],
        if k + 1 == choices.len() {
            accounting
        } else {
            None
        },
        if k + 1 == choices.len() {
            annotation
        } else {
            None
        },
    ));
}

/// A response that the stream itself makes holds one choice, in order, and an envelope,
/// and neither accounting nor annotation.
pub proof fn law_made_up_responses_report_nothing<E: Clone, M, A>(
    responses: Seq<Annotated<E, M, A>>,
    envelope: E,
    choices: Seq<ChoiceView>,
    k: int,
)
    requires
        are_bare_deliveries(responses, envelope, choices),
        0 <= k < choices.len(),
    ensures
        responses.len() == choices.len(),
        responses[k].data is Some,
        cloned(envelope, responses[k].data->0.envelope),
        responses[k].data->0.choices.deep_view().len() == 1,
        responses[k].data->0.choices.deep_view()[0] == choices[k],
        responses[k].data->0.accounting is None,
        responses[k].annotation is None,
{
    assert(is_delivery(responses[k], envelope, choices[k], None, None));
}

// --- failures --------------------------------------------------------------------

/// Handing out the failures clears them and changes nothing else of a choice.
pub proof fn law_handing_out_failures_changes_nothing_else(stream: StreamView, index: u32)
    ensures
        ({
            let after = without_failures(stream);
            &&& after.refusals.len() == 0
            &&& after.finished == stream.finished
            &&& after.slots.contains_key(index) <==> stream.slots.contains_key(index)
            &&& stream.slots.contains_key(index) ==> {
                &&& after.slots[index].failure is None
                &&& after.slots[index].calls == stream.slots[index].calls
                &&& after.slots[index].progress == stream.slots[index].progress
            }
        }),
{
}

proof fn lemma_kept_failures(stream: StreamView, order: Seq<u32>, index: u32)
    ensures
        forall|k: int|
            0 <= k < kept_failures(stream, order).len() ==> order.contains(
                (#[trigger] kept_failures(stream, order)[k]).choice,
            ) && kept_failures(stream, order)[k].error is Parser && stream.slots[kept_failures(
                stream,
                order,
            )[k].choice].failure == Some(kept_failures(stream, order)[k].error->Parser_0),
        order.contains(index) && stream.slots[index].failure is Some ==> exists|k: int|
            0 <= k < kept_failures(stream, order).len() && (#[trigger] kept_failures(
                stream,
                order,
            )[k]).choice == index,
    decreases order.len(),
{
    if order.len() > 0 {
        let fewer = order.drop_last();
        let less = kept_failures(stream, fewer);
        let all = kept_failures(stream, order);
        lemma_kept_failures(stream, fewer, index);
        assert forall|k: int| 0 <= k < all.len() implies order.contains(
            (#[trigger] all[k]).choice,
        ) && all[k].error is Parser && stream.slots[all[k].choice].failure == Some(
            all[k].error->Parser_0,
        ) by {
            if k < less.len() {
                assert(all[k] == less[k]);
                let i = choose|i: int| 0 <= i < fewer.len() && fewer[i] == less[k].choice;
                assert(order[i] == less[k].choice);
            } else {
                assert(order[order.len() - 1] == all[k].choice);
            }
        }
        if order.contains(index) && stream.slots[index].failure is Some {
            if index == order.last() {
                assert(all[all.len() - 1].choice == index);
            } else {
                let i = choose|i: int| 0 <= i < order.len() && order[i] == index;
                assert(fewer[i] == index);
                let k = choose|k: int| 0 <= k < less.len() && (#[trigger] less[k]).choice == index;
                assert(all[k].choice == index);
            }
        }
    }
}

proof fn lemma_kept_failures_ascend(stream: StreamView, order: Seq<u32>)
    requires
        forall|i: int, j: int| 0 <= i < j < order.len() ==> order[i] < order[j],
    ensures
        forall|i: int, j: int|
            0 <= i < j < kept_failures(stream, order).len() ==> (#[trigger] kept_failures(
                stream,
                order,
            )[i]).choice < (#[trigger] kept_failures(stream, order)[j]).choice,
    decreases order.len(),
{
    if order.len() > 0 {
        let fewer = order.drop_last();
        let less = kept_failures(stream, fewer);
        let all = kept_failures(stream, order);
        assert forall|i: int, j: int| 0 <= i < j < fewer.len() implies fewer[i] < fewer[j] by {
            assert(order[i] < order[j]);
        }
        lemma_kept_failures_ascend(stream, fewer);
        lemma_kept_failures(stream, fewer, order.last());
        assert forall|i: int, j: int| 0 <= i < j < all.len() implies (#[trigger] all[i]).choice < (
        #[trigger] all[j]).choice by {
            if j < less.len() {
                assert(all[i] == less[i] && all[j] == less[j]);
            } else {
                assert(all[i] == less[i]);
                let at = choose|at: int| 0 <= at < fewer.len() && fewer[at] == less[i].choice;
                assert(order[at] < order[order.len() - 1]);
            }
        }
    }
}

/// Every error that a choice keeps is handed out under the choice's index, once and in
/// order of the indices, and nothing that no choice keeps.
pub proof fn law_every_kept_error_is_handed_out(
    stream: StreamView,
    order: Seq<u32>,
    index: u32,
    k: int,
)
    requires
        is_listing(stream, order),
    ensures
        stream.slots.contains_key(index) && stream.slots[index].failure is Some ==> exists|i: int|
            0 <= i < kept_failures(stream, order).len() && (#[trigger] kept_failures(
                stream,
                order,
            )[i]).choice == index,
        forall|i: int, j: int|
            0 <= i < j < kept_failures(stream, order).len() ==> (#[trigger] kept_failures(
                stream,
                order,
            )[i]).choice < (#[trigger] kept_failures(stream, order)[j]).choice,
        0 <= k < kept_failures(stream, order).len() ==> {
            let kept = kept_failures(stream, order)[k];
            &&& stream.slots.contains_key(kept.choice)
            &&& kept.error is Parser
            &&& stream.slots[kept.choice].failure == Some(kept.error->Parser_0)
        },
{
    lemma_kept_failures(stream, order, index);
    lemma_kept_failures_ascend(stream, order);
    if stream.slots.contains_key(index) {
        assert(order.contains(index));
    }
    if 0 <= k < kept_failures(stream, order).len() {
        let kept = kept_failures(stream, order)[k];
        assert(order.contains(kept.choice));
    }
}

} // verus!
