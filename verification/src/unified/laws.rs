//! What holds of every choice, whatever its parser answers.

use vstd::prelude::*;

use super::choice::{
    advance_deltas, advance_text, are_advance_calls, are_call_ids, at_least_one, calls_since,
    chunk_deltas, empty_choice_view, fails_after, fails_after_chunk, fails_after_push,
    framed_chunk, is_call_id, is_call_to, is_chunk_step, is_conversion, is_end_step, is_rewriting,
    normalized, opened_after, opens, plain_text, progress_after, push_count, recovered_text,
    reply_of, rewritten, Advance, Progress, Slot,
};
use super::deltas::{
    coalesced, delta_pieces, law_coalescing_keeps_a_joined_run,
    law_coalescing_keeps_every_piece_in_order, pieces, reasoning_pieces, text_deltas, text_pieces,
    Piece,
};
use super::outside::{ParserExchange, ParserReply};
use super::types::{CallView, ChoiceView, ContentView, DeltaView, FinishReason, FunctionType};

verus! {

// --- order -----------------------------------------------------------------------

/// What a client is shown of a piece: everything of prose, and of a call fragment the
/// tool index and the arguments.
pub open spec fn shown(piece: Piece) -> Piece {
    match piece {
        Piece::Call(call) => Piece::Call(
            CallView {
                tool_index: (call.tool_index as u32) as usize,
                name: None,
                arguments: call.arguments,
            },
        ),
        prose => prose,
    }
}

/// What a client is shown of a run of deltas.
pub open spec fn shown_deltas(deltas: Seq<DeltaView>) -> Seq<Piece> {
    pieces(deltas).map_values(|piece: Piece| shown(piece))
}

/// What one chunk shows a client.
pub open spec fn chunk_pieces(chunk: ChoiceView) -> Seq<Piece> {
    let prose = match chunk.content {
        Some(ContentView::Text(text)) => text_pieces(text),
        _ => seq![],
    };
    let thought = match chunk.reasoning_content {
        Some(text) => reasoning_pieces(text),
        None => seq![],
    };
    let fragments = match chunk.tool_calls {
        Some(calls) => Seq::new(
            calls.len(),
            |i: int|
                Piece::Call(
                    CallView {
                        tool_index: calls[i].index as usize,
                        name: None,
                        arguments: calls[i].function->0.arguments->0,
                    },
                ),
        ),
        None => seq![],
    };
    prose + thought + fragments
}

/// What a run of chunks shows a client, in the order of the run.
pub open spec fn run_pieces(chunks: Seq<ChoiceView>) -> Seq<Piece>
    decreases chunks.len(),
{
    if chunks.len() == 0 {
        seq![]
    } else {
        run_pieces(chunks.drop_last()) + chunk_pieces(chunks.last())
    }
}

proof fn lemma_chunk_shows_its_delta(
    progress: Progress,
    original: ChoiceView,
    deltas: Seq<DeltaView>,
    reason: Option<FinishReason>,
    ids: Seq<Seq<char>>,
    k: int,
)
    ensures
        chunk_pieces(framed_chunk(progress, original, deltas, reason, ids, k)) == delta_pieces(
            deltas[k],
        ).map_values(|piece: Piece| shown(piece)),
{
    let chunk = framed_chunk(progress, original, deltas, reason, ids, k);
    let expected = delta_pieces(deltas[k]).map_values(|piece: Piece| shown(piece));
    match deltas[k] {
        DeltaView::Text(text) => {
            assert(chunk_pieces(chunk) =~= text_pieces(text));
            assert(expected =~= text_pieces(text));
        },
        DeltaView::Reasoning(text) => {
            assert(chunk_pieces(chunk) =~= reasoning_pieces(text));
            assert(expected =~= reasoning_pieces(text));
        },
        DeltaView::ToolCall(call) => {
            assert(chunk_pieces(chunk) =~= seq![shown(Piece::Call(call))]);
            assert(expected =~= seq![shown(Piece::Call(call))]);
        },
    }
}

proof fn lemma_chunks_show_their_deltas(
    progress: Progress,
    original: ChoiceView,
    deltas: Seq<DeltaView>,
    reason: Option<FinishReason>,
    ids: Seq<Seq<char>>,
    k: int,
)
    requires
        0 <= k <= deltas.len(),
        deltas.len() > 0,
    ensures
        run_pieces(rewritten(progress, original, deltas, reason, ids).take(k)) == shown_deltas(
            deltas.take(k),
        ),
    decreases k,
{
    let chunks = rewritten(progress, original, deltas, reason, ids);
    if k == 0 {
        assert(run_pieces(chunks.take(0)) =~= shown_deltas(deltas.take(0)));
    } else {
        lemma_chunks_show_their_deltas(progress, original, deltas, reason, ids, k - 1);
        lemma_chunk_shows_its_delta(progress, original, deltas, reason, ids, k - 1);
        assert(chunks.take(k).drop_last() =~= chunks.take(k - 1));
        assert(deltas.take(k).drop_last() =~= deltas.take(k - 1));
        assert(run_pieces(chunks.take(k)) =~= shown_deltas(deltas.take(k)));
    }
}

/// The chunks show everything the deltas say and nothing else, in the order in which the
/// model produced it: a thought that followed a call stays after it, and is not run
/// together with the thought before.
pub proof fn law_chunks_keep_the_order_of_the_deltas(
    progress: Progress,
    original: ChoiceView,
    deltas: Seq<DeltaView>,
    reason: Option<FinishReason>,
    chunks: Seq<ChoiceView>,
)
    requires
        is_rewriting(progress, original, deltas, reason, chunks),
    ensures
        run_pieces(chunks) == shown_deltas(deltas),
{
    let joined = coalesced(deltas);
    law_coalescing_keeps_every_piece_in_order(deltas);
    let ids = choose|ids: Seq<Seq<char>>| #[trigger]
        are_call_ids(ids, joined.len()) && chunks == rewritten(
            progress,
            original,
            joined,
            reason,
            ids,
        );
    if joined.len() > 0 {
        lemma_chunks_show_their_deltas(
            progress,
            original,
            joined,
            reason,
            ids,
            joined.len() as int,
        );
        assert(chunks.take(joined.len() as int) =~= chunks);
        assert(joined.take(joined.len() as int) =~= joined);
    } else {
        if chunks.len() > 0 {
            assert(chunks.drop_last() =~= seq![]);
            assert(run_pieces(chunks.drop_last()) =~= seq![]);
            assert(chunk_pieces(chunks.last()) =~= seq![]);
        }
        assert(pieces(joined) =~= seq![]);
        assert(run_pieces(chunks) =~= shown_deltas(deltas));
    }
}

/// An upstream chunk shows the client what the parser made of its text and of the end,
/// in order, and nothing else.
pub proof fn law_a_chunk_shows_what_its_parser_said(
    before: Slot,
    original: ChoiceView,
    ends: bool,
    after: Slot,
    out: Seq<ChoiceView>,
)
    requires
        is_chunk_step(before, original, ends, after, out),
    ensures
        run_pieces(out) == shown_deltas(
            chunk_deltas(
                before.progress.failed,
                plain_text(original),
                ends,
                calls_since(before.calls, after.calls),
            ),
        ),
{
    let failed = before.progress.failed;
    let text = plain_text(original);
    let calls = calls_since(before.calls, after.calls);
    let deltas = chunk_deltas(failed, text, ends, calls);
    let fed = Progress { failed: fails_after_chunk(failed, text, ends, calls), ..before.progress };
    let chunks = choose|chunks: Seq<ChoiceView>| #[trigger]
        is_rewriting(fed, original, deltas, original.finish_reason, chunks) && out
            == at_least_one(chunks, original.index);
    law_chunks_keep_the_order_of_the_deltas(fed, original, deltas, original.finish_reason, chunks);
    if chunks.len() == 0 {
        assert(out.drop_last() =~= seq![]);
        assert(chunk_pieces(out.last()) =~= seq![]);
        assert(run_pieces(out) =~= run_pieces(chunks));
    }
}

/// The end of a choice shows the client what the parser still had to say, in order, and
/// nothing else.
pub proof fn law_an_end_shows_what_its_parser_said(
    before: Slot,
    index: u32,
    after: Slot,
    out: Seq<ChoiceView>,
)
    requires
        is_end_step(before, index, after, out),
    ensures
        run_pieces(out) == shown_deltas(
            advance_deltas(
                before.progress.failed,
                Advance::End,
                calls_since(before.calls, after.calls),
            ),
        ),
{
    let calls = calls_since(before.calls, after.calls);
    let deltas = advance_deltas(before.progress.failed, Advance::End, calls);
    let fed = Progress { failed: fails_after(before.progress.failed, calls), ..before.progress };
    let reason = if after.progress.tool_emitted {
        Some(FinishReason::ToolCalls)
    } else {
        None
    };
    law_chunks_keep_the_order_of_the_deltas(fed, empty_choice_view(index), deltas, reason, out);
}

// --- what a parser was fed and what it said --------------------------------------

/// All that a parser has said in these calls, in order.
pub open spec fn said(calls: Seq<ParserExchange>) -> Seq<DeltaView>
    decreases calls.len(),
{
    if calls.len() == 0 {
        seq![]
    } else {
        said(calls.drop_last()) + match calls.last() {
            ParserExchange::Pushed { chunk: _, reply: ParserReply::Deltas(deltas) } => deltas,
            ParserExchange::Finished { reply: ParserReply::Deltas(deltas) } => deltas,
            _ => seq![],
        }
    }
}

/// The text that a call hands to the parser.
pub open spec fn handed_text(call: ParserExchange) -> Seq<char> {
    match call {
        ParserExchange::Pushed { chunk, reply: _ } => chunk,
        _ => seq![],
    }
}

/// All text that a parser has been fed in these calls, in order.
pub open spec fn fed(calls: Seq<ParserExchange>) -> Seq<char>
    decreases calls.len(),
{
    if calls.len() == 0 {
        seq![]
    } else {
        fed(calls.drop_last()) + handed_text(calls.last())
    }
}

/// The text that is shown when a parser is given up: what it still held or, when it held
/// nothing, what the call that it refused handed to it.
pub open spec fn given_up_text(slot: Slot) -> Seq<char> {
    if slot.progress.failed {
        let count = slot.calls.len() as int;
        let held = slot.calls[count - 1]->unconsumed;
        if held.len() > 0 {
            held
        } else {
            handed_text(slot.calls[count - 2])
        }
    } else {
        seq![]
    }
}

/// The plain text of a chunk, empty when it has none.
pub open spec fn text_of_chunk(chunk: ChoiceView) -> Seq<char> {
    match chunk.content {
        Some(ContentView::Text(text)) => text,
        _ => seq![],
    }
}

proof fn lemma_pieces_of_two_runs(left: Seq<DeltaView>, right: Seq<DeltaView>)
    ensures
        pieces(left + right) == pieces(left) + pieces(right),
    decreases right.len(),
{
    if right.len() == 0 {
        assert(left + right =~= left);
        assert(pieces(left) + pieces(right) =~= pieces(left));
    } else {
        assert((left + right).drop_last() =~= left + right.drop_last());
        lemma_pieces_of_two_runs(left, right.drop_last());
        assert(pieces(left + right) =~= pieces(left) + pieces(right));
    }
}

pub(crate) proof fn lemma_shown_of_two_runs(left: Seq<DeltaView>, right: Seq<DeltaView>)
    ensures
        shown_deltas(left + right) == shown_deltas(left) + shown_deltas(right),
{
    lemma_pieces_of_two_runs(left, right);
    assert(shown_deltas(left + right) =~= shown_deltas(left) + shown_deltas(right));
}

pub(crate) proof fn lemma_chunks_of_two_runs(left: Seq<ChoiceView>, right: Seq<ChoiceView>)
    ensures
        run_pieces(left + right) == run_pieces(left) + run_pieces(right),
    decreases right.len(),
{
    if right.len() == 0 {
        assert(left + right =~= left);
        assert(run_pieces(left) + run_pieces(right) =~= run_pieces(left));
    } else {
        assert((left + right).drop_last() =~= left + right.drop_last());
        lemma_chunks_of_two_runs(left, right.drop_last());
        assert(run_pieces(left + right) =~= run_pieces(left) + run_pieces(right));
    }
}

pub(crate) proof fn lemma_said_of_two_runs(left: Seq<ParserExchange>, right: Seq<ParserExchange>)
    ensures
        said(left + right) == said(left) + said(right),
    decreases right.len(),
{
    if right.len() == 0 {
        assert(left + right =~= left);
        assert(said(left) + said(right) =~= said(left));
    } else {
        assert((left + right).drop_last() =~= left + right.drop_last());
        lemma_said_of_two_runs(left, right.drop_last());
        assert(said(left + right) =~= said(left) + said(right));
    }
}

pub(crate) proof fn lemma_fed_of_two_runs(left: Seq<ParserExchange>, right: Seq<ParserExchange>)
    ensures
        fed(left + right) == fed(left) + fed(right),
    decreases right.len(),
{
    if right.len() == 0 {
        assert(left + right =~= left);
        assert(fed(left) + fed(right) =~= fed(left));
    } else {
        assert((left + right).drop_last() =~= left + right.drop_last());
        lemma_fed_of_two_runs(left, right.drop_last());
        assert(fed(left + right) =~= fed(left) + fed(right));
    }
}

/// One advance of a parser that has not been given up feeds it its text, and yields what
/// the parser says and, when it refuses, what is shown of it.
proof fn lemma_advance(advance: Advance, calls: Seq<ParserExchange>)
    requires
        are_advance_calls(false, advance, calls),
    ensures
        fed(calls) == advance_text(advance),
        advance_deltas(false, advance, calls) == said(calls) + if calls.len() == 2 {
            text_deltas(recovered_text(calls[1]->unconsumed, advance_text(advance)))
        } else {
            seq![]
        },
{
    reveal_with_fuel(said, 3);
    reveal_with_fuel(fed, 3);
    let nothing: Seq<ParserExchange> = seq![];
    if calls.len() == 1 {
        assert(calls.drop_last() =~= nothing);
        assert(said(calls) =~= reply_of(calls[0])->Deltas_0);
        assert(said(calls) + Seq::<DeltaView>::empty() =~= said(calls));
    } else {
        assert(calls.drop_last() =~= seq![calls[0]]);
        assert(calls.drop_last().drop_last() =~= nothing);
        assert(said(calls) =~= seq![]);
        assert(said(calls) + text_deltas(
            recovered_text(calls[1]->unconsumed, advance_text(advance)),
        ) =~= text_deltas(recovered_text(calls[1]->unconsumed, advance_text(advance))));
    }
    assert(fed(calls) =~= advance_text(advance));
}

/// A chunk of a choice whose parser has not been given up: its text is fed to the parser,
/// and what is shown is what the parser says and, when it refuses, what is shown of it.
pub(crate) proof fn lemma_chunk_account(
    before: Slot,
    original: ChoiceView,
    ends: bool,
    after: Slot,
    out: Seq<ChoiceView>,
)
    requires
        is_chunk_step(before, original, ends, after, out),
        !before.progress.failed,
    ensures
        chunk_deltas(
            false,
            plain_text(original),
            ends,
            calls_since(before.calls, after.calls),
        ) == said(calls_since(before.calls, after.calls)) + text_deltas(given_up_text(after)),
        fed(calls_since(before.calls, after.calls)) == text_of_chunk(original),
        run_pieces(out) == shown_deltas(said(calls_since(before.calls, after.calls)))
            + text_pieces(given_up_text(after)),
        after.progress.failed ==> calls_since(before.calls, after.calls).len() >= 2
            && after.calls.last() is Reset,
{
    let text = plain_text(original);
    let calls = calls_since(before.calls, after.calls);
    let pushed = push_count(false, text, calls);
    let first = calls.take(pushed);
    let last = calls.skip(pushed);
    let nothing: Seq<DeltaView> = seq![];
    law_a_chunk_shows_what_its_parser_said(before, original, ends, after, out);
    assert(first + last =~= calls);
    lemma_said_of_two_runs(first, last);
    lemma_fed_of_two_runs(first, last);
    if text is Some {
        lemma_advance(Advance::Chunk(text->0), first);
    }
    if ends && !fails_after_push(false, text, calls) {
        lemma_advance(Advance::End, last);
    }
    assert(fed(calls) =~= text_of_chunk(original));
    let shown_text = given_up_text(after);
    assert(chunk_deltas(false, text, ends, calls) =~= said(calls) + text_deltas(shown_text)) by {
        assert(said(first) + nothing =~= said(first));
        if after.progress.failed {
            let count = after.calls.len() as int;
            assert(after.calls[count - 1] == calls[calls.len() - 1]);
            assert(after.calls[count - 2] == calls[calls.len() - 2]);
        }
    }
    lemma_shown_of_two_runs(said(calls), text_deltas(shown_text));
    lemma_text_makes_no_progress(before.progress, shown_text);
}

/// The end of a choice whose parser has not been given up: what is shown is what the
/// parser says and, when it refuses, what is shown of it.
pub(crate) proof fn lemma_end_account(before: Slot, index: u32, after: Slot, out: Seq<ChoiceView>)
    requires
        is_end_step(before, index, after, out),
        !before.progress.failed,
    ensures
        advance_deltas(false, Advance::End, calls_since(before.calls, after.calls)) == said(
            calls_since(before.calls, after.calls),
        ) + text_deltas(given_up_text(after)),
        fed(calls_since(before.calls, after.calls)) == Seq::<char>::empty(),
        run_pieces(out) == shown_deltas(said(calls_since(before.calls, after.calls)))
            + text_pieces(given_up_text(after)),
        after.progress.failed ==> calls_since(before.calls, after.calls).len() >= 2
            && after.calls.last() is Reset,
{
    let calls = calls_since(before.calls, after.calls);
    law_an_end_shows_what_its_parser_said(before, index, after, out);
    lemma_advance(Advance::End, calls);
    let shown_text = given_up_text(after);
    assert(advance_deltas(false, Advance::End, calls) =~= said(calls) + text_deltas(shown_text))
        by {
        if after.progress.failed {
            let count = after.calls.len() as int;
            assert(after.calls[count - 1] == calls[1]);
            assert(after.calls[count - 2] == calls[0]);
        }
    }
    lemma_shown_of_two_runs(said(calls), text_deltas(shown_text));
    lemma_text_makes_no_progress(before.progress, shown_text);
}

// --- envelope --------------------------------------------------------------------

/// Every chunk keeps the choice's index and has no log probabilities. Role and refusal
/// ride on the first chunk alone, the terminating reason on the last alone. There is no
/// chunk at all exactly when there is nothing to deliver.
pub proof fn law_role_rides_first_and_reason_last(
    progress: Progress,
    original: ChoiceView,
    deltas: Seq<DeltaView>,
    reason: Option<FinishReason>,
    chunks: Seq<ChoiceView>,
)
    requires
        is_rewriting(progress, original, deltas, reason, chunks),
    ensures
        forall|k: int|
            0 <= k < chunks.len() ==> (#[trigger] chunks[k]).index == original.index
                && chunks[k].logprobs is None,
        forall|k: int|
            0 <= k < chunks.len() ==> (#[trigger] chunks[k]).role == if k == 0 {
                original.role
            } else {
                None
            },
        forall|k: int|
            0 <= k < chunks.len() ==> (#[trigger] chunks[k]).refusal == if k == 0 {
                original.refusal
            } else {
                None
            },
        forall|k: int|
            0 <= k < chunks.len() ==> (#[trigger] chunks[k]).finish_reason == if k + 1
                == chunks.len() {
                normalized(reason, progress_after(progress, coalesced(deltas)).tool_emitted)
            } else {
                None
            },
        chunks.len() == 0 <==> deltas.len() == 0 && original.role is None && original.refusal is None
            && reason is None,
{
    let joined = coalesced(deltas);
    lemma_coalesced_is_empty(deltas);
    let ids = choose|ids: Seq<Seq<char>>| #[trigger]
        are_call_ids(ids, joined.len()) && chunks == rewritten(
            progress,
            original,
            joined,
            reason,
            ids,
        );
    if joined.len() > 0 {
        assert forall|k: int| 0 <= k < chunks.len() implies #[trigger] chunks[k] == framed_chunk(
            progress,
            original,
            joined,
            reason,
            ids,
            k,
        ) by {}
    }
}

proof fn lemma_coalesced_is_empty(deltas: Seq<DeltaView>)
    ensures
        coalesced(deltas).len() == 0 <==> deltas.len() == 0,
{
}

/// Reporting a reason twice changes nothing more, and only `Stop` is ever reported as
/// something else.
pub proof fn law_only_stop_is_reported_otherwise(reason: Option<FinishReason>, tool_emitted: bool)
    ensures
        normalized(normalized(reason, tool_emitted), tool_emitted) == normalized(
            reason,
            tool_emitted,
        ),
        reason != Some(FinishReason::Stop) ==> normalized(reason, tool_emitted) == reason,
        normalized(reason, tool_emitted) is Some <==> reason is Some,
{
}

/// Exactly the last chunk of an upstream chunk reports how the choice terminated: with
/// `ToolCalls` in place of `Stop` once the choice has emitted a tool call, and as the
/// backend said otherwise.
pub proof fn law_a_terminating_chunk_reports_last(
    before: Slot,
    original: ChoiceView,
    ends: bool,
    after: Slot,
    out: Seq<ChoiceView>,
)
    requires
        is_chunk_step(before, original, ends, after, out),
    ensures
        out.len() > 0,
        forall|k: int|
            0 <= k < out.len() ==> (#[trigger] out[k]).index == original.index && out[k].finish_reason
                == if k + 1 == out.len() {
                normalized(original.finish_reason, after.progress.tool_emitted)
            } else {
                None
            },
{
    let failed = before.progress.failed;
    let text = plain_text(original);
    let calls = calls_since(before.calls, after.calls);
    let deltas = chunk_deltas(failed, text, ends, calls);
    let fed = Progress { failed: fails_after_chunk(failed, text, ends, calls), ..before.progress };
    let chunks = choose|chunks: Seq<ChoiceView>| #[trigger]
        is_rewriting(fed, original, deltas, original.finish_reason, chunks) && out
            == at_least_one(chunks, original.index);
    law_role_rides_first_and_reason_last(fed, original, deltas, original.finish_reason, chunks);
}

/// A choice that has emitted a tool call terminates with `ToolCalls` even when the
/// backend never said that it stopped; a choice that has not gets no reason made up.
pub proof fn law_an_unterminated_tool_call_is_terminated(
    before: Slot,
    index: u32,
    after: Slot,
    out: Seq<ChoiceView>,
)
    requires
        is_end_step(before, index, after, out),
    ensures
        after.progress.tool_emitted ==> out.len() > 0 && out.last().finish_reason == Some(
            FinishReason::ToolCalls,
        ),
        !after.progress.tool_emitted ==> forall|k: int|
            0 <= k < out.len() ==> (#[trigger] out[k]).finish_reason is None,
        forall|k: int| 0 <= k < out.len() ==> (#[trigger] out[k]).index == index,
{
    let calls = calls_since(before.calls, after.calls);
    let deltas = advance_deltas(before.progress.failed, Advance::End, calls);
    let fed = Progress { failed: fails_after(before.progress.failed, calls), ..before.progress };
    let reason = if after.progress.tool_emitted {
        Some(FinishReason::ToolCalls)
    } else {
        None
    };
    law_role_rides_first_and_reason_last(fed, empty_choice_view(index), deltas, reason, out);
}

// --- tool calls ------------------------------------------------------------------

/// A call fragment becomes a chunk with its arguments. The chunk opens the call, with an
/// identifier, the type and the name, exactly when no fragment of the call has gone out
/// before, in this run or an earlier one; any other chunk of the call has none of these.
pub proof fn law_a_call_is_opened_by_its_first_chunk(
    progress: Progress,
    original: ChoiceView,
    deltas: Seq<DeltaView>,
    reason: Option<FinishReason>,
    chunks: Seq<ChoiceView>,
    k: int,
)
    requires
        is_rewriting(progress, original, deltas, reason, chunks),
        0 <= k < coalesced(deltas).len(),
        coalesced(deltas)[k] is ToolCall,
    ensures
        ({
            let joined = coalesced(deltas);
            let call = joined[k]->ToolCall_0;
            let first = !progress.opened.contains(call.tool_index) && forall|i: int|
                0 <= i < k ==> !is_call_to(#[trigger] joined[i], call.tool_index);
            &&& chunks.len() == joined.len()
            &&& chunks[k].tool_calls matches Some(fragments) && {
                &&& fragments.len() == 1
                &&& fragments[0].index == call.tool_index as u32
                &&& fragments[0].function matches Some(function) && {
                    &&& function.arguments == Some(call.arguments)
                    &&& function.name == if first {
                        call.name
                    } else {
                        None
                    }
                }
                &&& first ==> fragments[0].kind == Some(FunctionType::Function) && (
                fragments[0].id matches Some(id) && is_call_id(id))
                &&& !first ==> fragments[0].kind is None && fragments[0].id is None
            }
            &&& progress_after(progress, joined).opened.contains(call.tool_index)
        }),
{
    let joined = coalesced(deltas);
    let call = joined[k]->ToolCall_0;
    let ids = choose|ids: Seq<Seq<char>>| #[trigger]
        are_call_ids(ids, joined.len()) && chunks == rewritten(
            progress,
            original,
            joined,
            reason,
            ids,
        );
    assert(chunks[k] == framed_chunk(progress, original, joined, reason, ids, k));
    assert(is_call_id(ids[k]));
    assert(is_call_to(joined[k], call.tool_index));
    let before = joined.take(k);
    assert forall|i: int| 0 <= i < k implies before[i] == #[trigger] joined[i] by {}
    if exists|i: int| 0 <= i < k && is_call_to(#[trigger] joined[i], call.tool_index) {
        let i = choose|i: int| 0 <= i < k && is_call_to(#[trigger] joined[i], call.tool_index);
        assert(is_call_to(before[i], call.tool_index));
    }
    assert(opens(opened_after(progress.opened, before), joined[k]) <==> !progress.opened.contains(
        call.tool_index,
    ) && forall|i: int| 0 <= i < k ==> !is_call_to(#[trigger] joined[i], call.tool_index));
}

/// Conversions one after the other: each takes the choice from one state to the next.
pub open spec fn are_conversions(
    states: Seq<Progress>,
    indices: Seq<u32>,
    deltas: Seq<DeltaView>,
    chunks: Seq<ChoiceView>,
) -> bool {
    &&& indices.len() == deltas.len()
    &&& chunks.len() == deltas.len()
    &&& states.len() == deltas.len() + 1
    &&& forall|k: int|
        #![trigger deltas[k]]
        0 <= k < deltas.len() ==> is_conversion(
            states[k],
            indices[k],
            deltas[k],
            states[k + 1],
            chunks[k],
        )
}

proof fn lemma_opened_by_conversions(
    states: Seq<Progress>,
    indices: Seq<u32>,
    deltas: Seq<DeltaView>,
    chunks: Seq<ChoiceView>,
    k: int,
    tool_index: usize,
)
    requires
        are_conversions(states, indices, deltas, chunks),
        0 <= k <= deltas.len(),
    ensures
        states[k].opened.contains(tool_index) <==> states[0].opened.contains(tool_index)
            || exists|i: int| 0 <= i < k && is_call_to(#[trigger] deltas[i], tool_index),
    decreases k,
{
    if k > 0 {
        lemma_opened_by_conversions(states, indices, deltas, chunks, k - 1, tool_index);
        let delta = deltas[k - 1];
        let run = seq![delta];
        assert(is_conversion(states[k - 1], indices[k - 1], delta, states[k], chunks[k - 1]));
        assert(run[0] == delta);
        if states[k - 1].opened.contains(tool_index) && !states[0].opened.contains(tool_index) {
            let i = choose|i: int| 0 <= i < k - 1 && is_call_to(#[trigger] deltas[i], tool_index);
            assert(is_call_to(deltas[i], tool_index));
        }
        if exists|i: int| 0 <= i < k && is_call_to(#[trigger] deltas[i], tool_index) {
            let i = choose|i: int| 0 <= i < k && is_call_to(#[trigger] deltas[i], tool_index);
            if i == k - 1 {
                assert(is_call_to(run[0], tool_index));
            }
        }
        if states[k].opened.contains(tool_index) && !states[k - 1].opened.contains(tool_index) {
            assert(is_call_to(deltas[k - 1], tool_index));
        }
    }
}

/// Over any sequence of conversions of a choice that starts with no call opened, each call
/// is opened exactly once: its first chunk has an identifier, the type and the name, and
/// every later one has none of these. Every chunk of a call has its tool index and the
/// arguments of its delta.
pub proof fn law_each_call_is_opened_exactly_once(
    states: Seq<Progress>,
    indices: Seq<u32>,
    deltas: Seq<DeltaView>,
    chunks: Seq<ChoiceView>,
    k: int,
)
    requires
        are_conversions(states, indices, deltas, chunks),
        states[0].opened == Set::<usize>::empty(),
        0 <= k < deltas.len(),
        deltas[k] is ToolCall,
    ensures
        ({
            let call = deltas[k]->ToolCall_0;
            let first = forall|i: int|
                0 <= i < k ==> !is_call_to(#[trigger] deltas[i], call.tool_index);
            &&& chunks[k].index == indices[k]
            &&& chunks[k].tool_calls matches Some(fragments) && {
                &&& fragments.len() == 1
                &&& fragments[0].index == call.tool_index as u32
                &&& fragments[0].function matches Some(function) && {
                    &&& function.arguments == Some(call.arguments)
                    &&& function.name == if first {
                        call.name
                    } else {
                        None
                    }
                }
                &&& first ==> fragments[0].kind == Some(FunctionType::Function) && (
                fragments[0].id matches Some(id) && is_call_id(id))
                &&& !first ==> fragments[0].kind is None && fragments[0].id is None
            }
        }),
{
    let call = deltas[k]->ToolCall_0;
    lemma_opened_by_conversions(states, indices, deltas, chunks, k, call.tool_index);
    assert(is_conversion(states[k], indices[k], deltas[k], states[k + 1], chunks[k]));
}

/// What a choice has sent stays sent: an opened call stays open, a choice that has
/// emitted tool calls stays one, and a parser that was given up stays given up.
pub proof fn law_progress_is_kept(progress: Progress, deltas: Seq<DeltaView>)
    ensures
        progress.opened.subset_of(progress_after(progress, deltas).opened),
        progress.tool_emitted ==> progress_after(progress, deltas).tool_emitted,
        progress_after(progress, deltas).failed == progress.failed,
{
}

// --- failure ---------------------------------------------------------------------

proof fn lemma_text_makes_no_progress(progress: Progress, text: Seq<char>)
    ensures
        progress_after(progress, coalesced(text_deltas(text))) == progress,
        shown_deltas(text_deltas(text)) == text_pieces(text),
{
    let run = text_deltas(text);
    law_coalescing_keeps_a_joined_run(run);
    assert(opened_after(progress.opened, run) =~= progress.opened);
    assert(progress_after(progress, run) =~= progress);
    if run.len() > 0 {
        assert(run.drop_last() =~= seq![]);
        assert(pieces(run.drop_last()) =~= seq![]);
    }
    assert(pieces(run) =~= text_pieces(text));
    assert(shown_deltas(run) =~= text_pieces(text));
}

/// Once its parser has been given up, a choice shows the text of every later chunk as it
/// is, and the parser is not called again.
pub proof fn law_a_failed_choice_passes_its_text(
    before: Slot,
    original: ChoiceView,
    ends: bool,
    after: Slot,
    out: Seq<ChoiceView>,
)
    requires
        is_chunk_step(before, original, ends, after, out),
        before.progress.failed,
    ensures
        after == before,
        run_pieces(out) == text_pieces(
            match plain_text(original) {
                Some(text) => text,
                None => seq![],
            },
        ),
{
    let text = plain_text(original);
    let calls = calls_since(before.calls, after.calls);
    let deltas = chunk_deltas(true, text, ends, calls);
    let said: Seq<char> = match text {
        Some(text) => text,
        None => seq![],
    };
    assert(calls.len() == 0) by {
        assert(push_count(true, text, calls) == 0);
        if ends {
            assert(calls.skip(0) =~= calls);
        }
    }
    assert(before.calls + calls =~= before.calls);
    assert(deltas =~= text_deltas(said));
    law_a_chunk_shows_what_its_parser_said(before, original, ends, after, out);
    lemma_text_makes_no_progress(before.progress, said);
    assert(after =~= before);
}

/// When a parser refuses a chunk or, with a chunk that ends its choice, the end, nothing
/// of what the model said is lost: the client is shown what the parser had said and then
/// the text that it still held or, when it held none, the text that the refused call
/// handed to it.
pub proof fn law_a_refused_chunk_is_still_shown(
    before: Slot,
    original: ChoiceView,
    ends: bool,
    after: Slot,
    out: Seq<ChoiceView>,
)
    requires
        is_chunk_step(before, original, ends, after, out),
        !before.progress.failed,
        after.progress.failed,
    ensures
        ({
            let calls = calls_since(before.calls, after.calls);
            let count = calls.len() as int;
            &&& count >= 2
            &&& calls[count - 2] is Pushed || calls[count - 2] is Finished
            &&& calls[count - 2] matches ParserExchange::Pushed { chunk, reply: _ }
                ==> plain_text(original) == Some(chunk) && said(calls) == Seq::<DeltaView>::empty()
            &&& calls[count - 2] is Finished ==> ends
            &&& calls[count - 1] matches ParserExchange::Reset { unconsumed } && run_pieces(out)
                == shown_deltas(said(calls)) + text_pieces(
                recovered_text(unconsumed, handed_text(calls[count - 2])),
            )
        }),
{
    let calls = calls_since(before.calls, after.calls);
    let text = plain_text(original);
    let pushed = push_count(false, text, calls);
    lemma_chunk_account(before, original, ends, after, out);
    let count = after.calls.len() as int;
    assert(after.calls[count - 1] == calls[calls.len() - 1]);
    assert(after.calls[count - 2] == calls[calls.len() - 2]);
    if pushed == 2 {
        assert(calls.take(2) =~= calls);
        reveal_with_fuel(said, 3);
        assert(calls.drop_last().drop_last() =~= seq![]);
        assert(said(calls) =~= seq![]);
    }
}

/// When a parser refuses the end of a choice that no chunk has terminated, the client is
/// shown the text that the parser still held, and no text is lost.
pub proof fn law_a_refused_end_is_still_shown(
    before: Slot,
    index: u32,
    after: Slot,
    out: Seq<ChoiceView>,
)
    requires
        is_end_step(before, index, after, out),
        !before.progress.failed,
        after.progress.failed,
    ensures
        after.calls.last() matches ParserExchange::Reset { unconsumed } && run_pieces(out)
            == text_pieces(unconsumed),
{
    let calls = calls_since(before.calls, after.calls);
    lemma_end_account(before, index, after, out);
    let count = after.calls.len() as int;
    assert(after.calls[count - 1] == calls[1]);
    assert(after.calls[count - 2] == calls[0]);
    reveal_with_fuel(said, 3);
    assert(calls.drop_last().drop_last() =~= seq![]);
    assert(said(calls) =~= seq![]);
    let unconsumed = calls[1]->unconsumed;
    assert(recovered_text(unconsumed, seq![]) =~= unconsumed);
    assert(pieces(said(calls)) =~= seq![]);
    assert(run_pieces(out) =~= text_pieces(unconsumed));
}

} // verus!
