//! What the contracts of a choice and of a stream come to, field by field.

use vstd::prelude::*;

use super::choice::{
    advance_deltas, are_call_ids, at_least_one, calls_since, chunk_deltas, chunk_view,
    empty_choice_view, fails_after_chunk, framed_chunk, is_call_id, is_call_to, is_chunk_step,
    is_conversion, is_end_step, is_refused_set_up, is_rewriting, no_progress, normalized,
    plain_text, progress_after, push_count, recovered_text, rewritten, Advance, ChoiceState,
    Progress, Slot,
};
use super::deltas::{coalesced, text_deltas};
use super::laws::{given_up_text, lemma_chunk_account, lemma_end_account, said, text_of_chunk};
use super::outside::{is_uuid_text, refusal, transcript, ParserExchange};
use super::types::{
    ChatChoiceStream, ChatCompletionMessageContent, ChoiceView, ContentView, DeltaView, EventView,
    FinishReason, FunctionType, ModeView, Tool, ToolCallDelta, ToolView, UnifiedDelta,
    UnifiedEvent, UnifiedParserPrefill, UnifiedToolOutputMode,
};

verus! {

// --- views -----------------------------------------------------------------------

/// A choice is seen with every one of its fields, none left out and none changed.
pub proof fn law_a_choice_is_seen_whole(choice: ChatChoiceStream, k: int)
    ensures
        ({
            let seen = choice.deep_view();
            let delta = choice.delta;
            &&& seen.index == choice.index
            &&& seen.finish_reason == choice.finish_reason
            &&& seen.logprobs == choice.logprobs
            &&& seen.role == delta.role
            &&& seen.function_call == delta.function_call
            &&& seen.refusal is Some <==> delta.refusal is Some
            &&& delta.refusal is Some ==> seen.refusal->0 == delta.refusal->0@
            &&& seen.reasoning_content is Some <==> delta.reasoning_content is Some
            &&& delta.reasoning_content is Some ==> seen.reasoning_content->0
                == delta.reasoning_content->0@
            &&& match delta.content {
                Some(ChatCompletionMessageContent::Text(text)) => seen.content == Some(
                    ContentView::Text(text@),
                ),
                Some(ChatCompletionMessageContent::Parts(parts)) => seen.content == Some(
                    ContentView::Parts(parts@),
                ),
                None => seen.content is None,
            }
            &&& seen.tool_calls is Some <==> delta.tool_calls is Some
            &&& delta.tool_calls is Some ==> seen.tool_calls->0.len() == delta.tool_calls->0@.len()
            &&& delta.tool_calls is Some && 0 <= k < delta.tool_calls->0@.len() ==> {
                let fragment = delta.tool_calls->0@[k];
                let told = seen.tool_calls->0[k];
                &&& told.index == fragment.index
                &&& told.kind == fragment.kind
                &&& told.id is Some <==> fragment.id is Some
                &&& fragment.id is Some ==> told.id->0 == fragment.id->0@
                &&& told.function is Some <==> fragment.function is Some
                &&& fragment.function is Some ==> {
                    let function = fragment.function->0;
                    let named = told.function->0;
                    &&& named.name is Some <==> function.name is Some
                    &&& function.name is Some ==> named.name->0 == function.name->0@
                    &&& named.arguments is Some <==> function.arguments is Some
                    &&& function.arguments is Some ==> named.arguments->0
                        == function.arguments->0@
                }
            }
        }),
{
}

/// A call fragment, a delta and an event are seen with all that they hold.
pub proof fn law_deltas_and_events_are_seen_whole(
    call: ToolCallDelta,
    delta: UnifiedDelta,
    event: UnifiedEvent,
)
    ensures
        call.deep_view().tool_index == call.tool_index,
        call.deep_view().arguments == call.arguments@,
        call.deep_view().name is Some <==> call.name is Some,
        call.name is Some ==> call.deep_view().name->0 == call.name->0@,
        match delta {
            UnifiedDelta::Text { text } => delta.deep_view() == DeltaView::Text(text@),
            UnifiedDelta::Reasoning { text } => delta.deep_view() == DeltaView::Reasoning(text@),
            UnifiedDelta::ToolCall(fragment) => delta.deep_view() == DeltaView::ToolCall(
                fragment.deep_view(),
            ),
        },
        match event {
            UnifiedEvent::Text { text } => event.deep_view() == EventView::Text(text@),
            UnifiedEvent::Reasoning { text } => event.deep_view() == EventView::Reasoning(text@),
            UnifiedEvent::ToolCall { name, arguments } => event.deep_view() is ToolCall
                && event.deep_view()->name == name@ && event.deep_view()->arguments == arguments,
        },
{
}

/// A tool and an output mode are seen with all that they hold.
pub proof fn law_tools_and_modes_are_seen_whole(tool: Tool, mode: UnifiedToolOutputMode)
    ensures
        tool.deep_view().name == tool.name@,
        tool.deep_view().parameters == tool.parameters,
        tool.deep_view().strict == tool.strict,
        tool.deep_view().description is Some <==> tool.description is Some,
        tool.description is Some ==> tool.deep_view().description->0 == tool.description->0@,
        mode.deep_view() is Native <==> mode is Native,
        mode is GuidedJson ==> (mode.deep_view()->named_tool is Some <==> mode->named_tool is Some),
        mode is GuidedJson && mode->named_tool is Some ==> mode.deep_view()->named_tool->0
            == mode->named_tool->0@,
{
}

/// A choice's state is seen with the calls it has opened, its flags, its parser's calls
/// and its error.
pub proof fn law_a_state_is_seen_whole(state: ChoiceState)
    ensures
        state.progress().opened == state.opened_calls@,
        state.progress().tool_emitted == state.tool_emitted,
        state.progress().failed == state.failed,
        state.slot().progress == state.progress(),
        state.slot().calls == transcript(state.parser),
        state.slot().failure == state.failure,
{
}

// --- chunks ----------------------------------------------------------------------

/// An empty choice has its index and nothing else.
pub proof fn law_an_empty_choice_says_nothing(index: u32)
    ensures
        says_nothing(empty_choice_view(index), index),
{
}

/// The choice has this index and nothing else.
pub open spec fn says_nothing(choice: ChoiceView, index: u32) -> bool {
    &&& choice.index == index
    &&& choice.role is None && choice.refusal is None && choice.finish_reason is None
    &&& choice.content is None && choice.reasoning_content is None && choice.tool_calls is None
    &&& choice.function_call is None && choice.logprobs is None
}

/// A call identifier is `call-` and a random UUID.
pub proof fn law_a_call_identifier_is_a_prefixed_uuid(id: Seq<char>, uuid: Seq<char>)
    ensures
        is_uuid_text(uuid) ==> is_call_id("call-"@ + uuid),
        is_call_id(id) ==> id == "call-"@ + id.skip(5) && is_uuid_text(id.skip(5)),
{
    reveal_strlit("call-");
    let made = "call-"@ + uuid;
    assert(made.take(5) =~= "call-"@);
    assert(made.skip(5) =~= uuid);
    if is_call_id(id) {
        assert(id =~= id.take(5) + id.skip(5));
    }
}

/// A chunk carries one delta and nothing beside it: text as content, reasoning as
/// reasoning, and a call fragment as one fragment with its index and its arguments, and
/// with type and name just when it carries an identifier.
pub proof fn law_a_chunk_carries_one_delta(index: u32, delta: DeltaView, id: Option<Seq<char>>)
    ensures
        ({
            let chunk = chunk_view(index, delta, id);
            &&& chunk.index == index
            &&& chunk.role is None && chunk.refusal is None && chunk.finish_reason is None
            &&& chunk.function_call is None && chunk.logprobs is None
            &&& match delta {
                DeltaView::Text(text) => chunk.content == Some(ContentView::Text(text))
                    && chunk.reasoning_content is None && chunk.tool_calls is None,
                DeltaView::Reasoning(text) => chunk.content is None && chunk.reasoning_content
                    == Some(text) && chunk.tool_calls is None,
                DeltaView::ToolCall(call) => {
                    &&& chunk.content is None && chunk.reasoning_content is None
                    &&& chunk.tool_calls is Some && chunk.tool_calls->0.len() == 1
                    &&& {
                        let fragment = chunk.tool_calls->0[0];
                        &&& fragment.index == call.tool_index as u32
                        &&& fragment.id == id
                        &&& fragment.function is Some
                        &&& fragment.function->0.arguments == Some(call.arguments)
                        &&& id is Some ==> fragment.kind == Some(FunctionType::Function)
                            && fragment.function->0.name == call.name
                        &&& id is None ==> fragment.kind is None && fragment.function->0.name
                            is None
                    }
                },
            }
        }),
{
}

/// `delta` is a fragment of the call `tool_index`, said by its fields.
pub open spec fn is_fragment_of(delta: DeltaView, tool_index: usize) -> bool {
    delta is ToolCall && delta->ToolCall_0.tool_index == tool_index
}

/// The calls that have been opened after a run of deltas are those opened before and those
/// with a fragment in the run, and no others. Tool calls have been emitted if they had
/// been before or the run has a fragment.
pub proof fn law_a_run_opens_the_calls_in_it(
    progress: Progress,
    deltas: Seq<DeltaView>,
    tool_index: usize,
)
    ensures
        progress_after(progress, deltas).opened.contains(tool_index) <==> progress.opened.contains(
            tool_index,
        ) || exists|j: int| 0 <= j < deltas.len() && is_fragment_of(#[trigger] deltas[j], tool_index),
        progress_after(progress, deltas).tool_emitted <==> progress.tool_emitted || exists|j: int|
            0 <= j < deltas.len() && #[trigger] deltas[j] is ToolCall,
        progress_after(progress, deltas).failed == progress.failed,
        !no_progress().opened.contains(tool_index) && !no_progress().tool_emitted
            && !no_progress().failed,
{
    let after = progress_after(progress, deltas);
    if exists|j: int| 0 <= j < deltas.len() && is_fragment_of(#[trigger] deltas[j], tool_index) {
        let j = choose|j: int|
            0 <= j < deltas.len() && is_fragment_of(#[trigger] deltas[j], tool_index);
        assert(is_call_to(deltas[j], tool_index));
    }
    if after.opened.contains(tool_index) && !progress.opened.contains(tool_index) {
        let j = choose|j: int|
            0 <= j < deltas.len() && is_call_to(#[trigger] deltas[j], tool_index);
        assert(is_fragment_of(deltas[j], tool_index));
    }
}

/// Once tool calls have been emitted, `Stop` is reported as `ToolCalls`, and until then as
/// `Stop`. Every other reason, and none, is reported as it is.
pub proof fn law_stop_is_reported_as_tool_calls(reason: Option<FinishReason>, tool_emitted: bool)
    ensures
        tool_emitted && reason is Some && reason->0 is Stop ==> normalized(reason, tool_emitted)
            is Some && normalized(reason, tool_emitted)->0 is ToolCalls,
        !tool_emitted || reason is None || !(reason->0 is Stop) ==> normalized(
            reason,
            tool_emitted,
        ) == reason,
{
}

/// Every delta of a coalesced run has a chunk of its own, at its place in the run, and a
/// chunk holds nothing of another delta.
pub proof fn law_each_delta_has_a_chunk_of_its_own(
    progress: Progress,
    original: ChoiceView,
    deltas: Seq<DeltaView>,
    reason: Option<FinishReason>,
    chunks: Seq<ChoiceView>,
    k: int,
)
    requires
        is_rewriting(progress, original, deltas, reason, chunks),
        0 <= k < chunks.len(),
    ensures
        coalesced(deltas).len() > 0 ==> chunks.len() == coalesced(deltas).len(),
        coalesced(deltas).len() == 0 ==> chunks.len() == 1 && chunks[k].content is None
            && chunks[k].reasoning_content is None && chunks[k].tool_calls is None,
        chunks[k].function_call is None,
        chunks[k].logprobs is None,
        chunks[k].index == original.index,
        coalesced(deltas).len() > 0 ==> {
            let delta = coalesced(deltas)[k];
            &&& chunks[k].content == (if delta is Text {
                Some(ContentView::Text(delta->Text_0))
            } else {
                None
            })
            &&& chunks[k].reasoning_content == (if delta is Reasoning {
                Some(delta->Reasoning_0)
            } else {
                None
            })
            &&& chunks[k].tool_calls is Some <==> delta is ToolCall
        },
{
    let joined = coalesced(deltas);
    let ids = choose|ids: Seq<Seq<char>>| #[trigger]
        are_call_ids(ids, joined.len()) && chunks == rewritten(
            progress,
            original,
            joined,
            reason,
            ids,
        );
    if joined.len() > 0 {
        assert(chunks[k] == framed_chunk(
            progress,
            original,
            joined,
            reason,
            ids,
            k,
        ));
    }
}

/// A conversion opens the call of its delta when no chunk of that call has gone out, and
/// leaves everything else as it was.
pub proof fn law_a_conversion_opens_its_call(
    before: Progress,
    index: u32,
    delta: DeltaView,
    after: Progress,
    chunk: ChoiceView,
    tool_index: usize,
)
    requires
        is_conversion(before, index, delta, after, chunk),
    ensures
        after.opened.contains(tool_index) <==> before.opened.contains(tool_index)
            || is_fragment_of(delta, tool_index),
        after.tool_emitted <==> before.tool_emitted || delta is ToolCall,
        after.failed == before.failed,
        chunk.index == index,
        delta is Text ==> chunk.content == Some(ContentView::Text(delta->Text_0)),
        delta is Reasoning ==> chunk.reasoning_content == Some(delta->Reasoning_0),
        delta is ToolCall ==> chunk.tool_calls is Some && chunk.tool_calls->0.len() == 1 && (
        chunk.tool_calls->0[0].id is Some <==> !before.opened.contains(
            delta->ToolCall_0.tool_index,
        )),
{
    let run = seq![delta];
    assert(run[0] == delta);
    law_a_run_opens_the_calls_in_it(before, run, tool_index);
    if is_fragment_of(delta, tool_index) {
        assert(is_fragment_of(run[0], tool_index));
    }
    if delta is ToolCall {
        assert(run[0] is ToolCall);
    }
}

// --- the parser of a choice ------------------------------------------------------

/// A parser that is given up is shown by what it held; by what it was given only if it
/// held nothing.
pub proof fn law_held_text_goes_before_given_text(held: Seq<char>, given: Seq<char>)
    ensures
        held.len() > 0 ==> recovered_text(held, given) == held,
        held.len() == 0 ==> recovered_text(held, given) == given,
{
}

/// What a chunk asks of the parser of its choice. Nothing is asked of a parser that has
/// been given up. Otherwise the text of the chunk, if it has any, is pushed, once and
/// whole; when the chunk ends the choice, the parser is then finished; and a parser that
/// refuses either is reset, and asked nothing more. It is given up just then. No earlier
/// call is undone.
pub proof fn law_what_a_chunk_asks_of_its_parser(
    before: Slot,
    original: ChoiceView,
    ends: bool,
    after: Slot,
    out: Seq<ChoiceView>,
)
    requires
        is_chunk_step(before, original, ends, after, out),
    ensures
        ({
            let n = before.calls.len() as int;
            let more = after.calls.len() - n;
            let failed = before.progress.failed;
            let has_text = original.content is Some && original.content->0 is Text;
            &&& more >= 0
            &&& after.calls.take(n) == before.calls
            &&& failed ==> more == 0 && after.progress.failed
            &&& !failed && !has_text && !ends ==> more == 0 && !after.progress.failed
            &&& !failed && has_text ==> {
                &&& more >= 1
                &&& after.calls[n] is Pushed
                &&& after.calls[n]->chunk == original.content->0->Text_0
                &&& refused(after.calls[n]) ==> more == 2 && after.calls[n + 1] is Reset
                    && after.progress.failed
                &&& !refused(after.calls[n]) && !ends ==> more == 1 && !after.progress.failed
                &&& !refused(after.calls[n]) && ends ==> is_end_of(
                    after.calls,
                    n + 1,
                    after.progress.failed,
                )
            }
            &&& !failed && !has_text && ends ==> is_end_of(after.calls, n, after.progress.failed)
        }),
{
    let calls = calls_since(before.calls, after.calls);
    let n = before.calls.len() as int;
    assert(after.calls.take(n) =~= before.calls);
    assert forall|i: int| 0 <= i < calls.len() implies #[trigger] calls[i] == after.calls[n
        + i] by {}
    let pushed = push_count(before.progress.failed, plain_text(original), calls);
    let last = calls.skip(pushed);
    assert forall|i: int| 0 <= i < last.len() implies #[trigger] last[i] == after.calls[n + pushed
        + i] by {
        assert(last[i] == calls[pushed + i]);
    }
}

/// The parser refused this push or this end.
pub open spec fn refused(call: ParserExchange) -> bool {
    match call {
        ParserExchange::Pushed { chunk: _, reply } => reply is Failed,
        ParserExchange::Finished { reply } => reply is Failed,
        _ => false,
    }
}

/// The calls from `at` on are the end of a parser: it is finished and, if it refuses,
/// reset and given up.
pub open spec fn is_end_of(calls: Seq<ParserExchange>, at: int, given_up: bool) -> bool {
    &&& at < calls.len()
    &&& calls[at] is Finished
    &&& refused(calls[at]) ==> calls.len() == at + 2 && calls[at + 1] is Reset && given_up
    &&& !refused(calls[at]) ==> calls.len() == at + 1 && !given_up
}

/// What the end asks of the parser of a choice: nothing of one that has been given up, and
/// otherwise that it be finished, once.
pub proof fn law_what_the_end_asks_of_a_parser(
    before: Slot,
    index: u32,
    after: Slot,
    out: Seq<ChoiceView>,
)
    requires
        is_end_step(before, index, after, out),
    ensures
        ({
            let n = before.calls.len() as int;
            &&& after.calls.len() >= n
            &&& after.calls.take(n) == before.calls
            &&& before.progress.failed ==> after.calls == before.calls && after.progress.failed
            &&& !before.progress.failed ==> is_end_of(after.calls, n, after.progress.failed)
        }),
{
    let calls = calls_since(before.calls, after.calls);
    let n = before.calls.len() as int;
    assert(after.calls.take(n) =~= before.calls);
    if before.progress.failed {
        assert(after.calls =~= before.calls);
    } else {
        assert(calls[0] == after.calls[n]);
    }
}

/// The error that a choice keeps is the refusal for which its parser was given up: that of
/// the call just before the reset. A chunk that does not have the parser given up leaves
/// what was kept.
pub proof fn law_the_error_kept_is_that_of_the_refused_call(
    before: Slot,
    original: ChoiceView,
    ends: bool,
    after: Slot,
    out: Seq<ChoiceView>,
)
    requires
        is_chunk_step(before, original, ends, after, out),
    ensures
        !before.progress.failed && after.progress.failed ==> after.failure is Some && refusal(
            after.failure->0,
        ) == after.calls.drop_last(),
        before.progress.failed || !after.progress.failed ==> after.failure == before.failure,
{
}

/// The same for the end of a choice.
pub proof fn law_the_error_kept_at_the_end_is_that_of_the_end(
    before: Slot,
    index: u32,
    after: Slot,
    out: Seq<ChoiceView>,
)
    requires
        is_end_step(before, index, after, out),
    ensures
        !before.progress.failed && after.progress.failed ==> after.failure is Some && refusal(
            after.failure->0,
        ) == after.calls.drop_last(),
        before.progress.failed || !after.progress.failed ==> after.failure == before.failure,
{
}

/// A chunk becomes the chunks of what its parser said and, when the parser is given up, of
/// the text recovered from it; or of its own text, when the parser had been given up. If
/// that is nothing, it becomes one chunk that says nothing.
pub proof fn law_a_chunk_becomes_what_its_parser_said(
    before: Slot,
    original: ChoiceView,
    ends: bool,
    after: Slot,
    out: Seq<ChoiceView>,
)
    requires
        is_chunk_step(before, original, ends, after, out),
    ensures
        ({
            let new = after.calls.skip(before.calls.len() as int);
            let deltas = if before.progress.failed {
                text_deltas(text_of_chunk(original))
            } else {
                said(new) + text_deltas(given_up_text(after))
            };
            let known = Progress { failed: after.progress.failed, ..before.progress };
            &&& after.progress == progress_after(known, coalesced(deltas))
            &&& is_rewriting(known, original, deltas, original.finish_reason, out) || (
            is_rewriting(known, original, deltas, original.finish_reason, seq![]) && out.len() == 1
                && says_nothing(out[0], original.index))
        }),
{
    let failed = before.progress.failed;
    let text = plain_text(original);
    let calls = calls_since(before.calls, after.calls);
    let deltas = chunk_deltas(failed, text, ends, calls);
    let fed = Progress { failed: fails_after_chunk(failed, text, ends, calls), ..before.progress };
    if failed {
        assert(calls.len() == 0) by {
            if ends {
                assert(calls.skip(0) =~= calls);
            }
        }
        assert(deltas =~= text_deltas(text_of_chunk(original)));
    } else {
        lemma_chunk_account(before, original, ends, after, out);
    }
    let chunks = choose|chunks: Seq<ChoiceView>| #[trigger]
        is_rewriting(fed, original, deltas, original.finish_reason, chunks) && out == at_least_one(
            chunks,
            original.index,
        );
    assert(fed.failed == after.progress.failed);
    if chunks.len() == 0 {
        assert(chunks =~= seq![]);
    }
}

/// The end of a choice becomes the chunks of what its parser still said and, when it is
/// given up, of the text recovered from it, with `ToolCalls` as the reason when a tool
/// call has been emitted, these last ones included, and no reason otherwise.
pub proof fn law_an_end_becomes_what_its_parser_said(
    before: Slot,
    index: u32,
    after: Slot,
    out: Seq<ChoiceView>,
)
    requires
        is_end_step(before, index, after, out),
    ensures
        ({
            let new = after.calls.skip(before.calls.len() as int);
            let deltas = if before.progress.failed {
                seq![]
            } else {
                said(new) + text_deltas(given_up_text(after))
            };
            let known = Progress { failed: after.progress.failed, ..before.progress };
            let reason = if after.progress.tool_emitted {
                Some(FinishReason::ToolCalls)
            } else {
                None
            };
            &&& after.progress == progress_after(known, coalesced(deltas))
            &&& is_rewriting(known, empty_choice_view(index), deltas, reason, out)
        }),
{
    let failed = before.progress.failed;
    let calls = calls_since(before.calls, after.calls);
    let deltas = advance_deltas(failed, Advance::End, calls);
    if failed {
        assert(deltas =~= seq![]);
    } else {
        lemma_end_account(before, index, after, out);
    }
}

/// Setting up a parser is refused at its making or at its initialization, with the family,
/// the tools, the channel and the mode that it was to have.
pub proof fn law_a_set_up_is_refused_at_its_making_or_its_start(
    family: Seq<char>,
    tools: Seq<ToolView>,
    prefill: UnifiedParserPrefill,
    mode: ModeView,
    calls: Seq<ParserExchange>,
)
    requires
        is_refused_set_up(family, tools, prefill, mode, calls),
    ensures
        1 <= calls.len() <= 2,
        calls[0] is Created && calls[0]->family == family && calls[0]->tools == tools,
        calls.len() == 2 ==> calls[1] is Initialized && calls[1]->prefill == prefill
            && calls[1]->mode == mode && !calls[1]->accepted,
{
}

/// A state is sound when it says that tool calls were emitted just if some call has been
/// opened.
pub proof fn law_a_sound_state_knows_of_its_calls(state: ChoiceState)
    ensures
        state.wf() <==> (state.tool_emitted <==> exists|tool_index: usize| #[trigger]
            state.opened_calls@.contains(tool_index)),
{
}

} // verus!
