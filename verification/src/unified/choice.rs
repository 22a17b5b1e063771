//! One response choice: its parser, and the chunks that its deltas become.

use std::collections::HashSet;

use vstd::prelude::*;

use super::deltas::{coalesce, coalesced, text_delta, text_deltas};
use super::outside::{
    create_parser, finish_parser, initialize_parser, is_lower_hex, is_uuid_text, push_parser,
    random_uuid_text, refusal, reset_parser, transcript, ParserExchange, ParserHandle, ParserReply,
};
use super::types::{
    ChatChoiceStream, ChatCompletionMessageContent, ChatCompletionMessageToolCallChunk,
    ChatCompletionStreamResponseDelta, ChoiceView, ContentView, DeltaView, FinishReason,
    FunctionCallStream, FunctionType, FunctionView, ModeView, Tool, ToolChunkView, ToolView,
    UnifiedDelta, UnifiedParserPrefill, UnifiedToolOutputMode,
};
use super::UnifiedParserError;

verus! {

// --- chunks ----------------------------------------------------------------------

/// A choice that says nothing.
pub open spec fn empty_choice_view(index: u32) -> ChoiceView {
    ChoiceView {
        index,
        role: None,
        content: None,
        tool_calls: None,
        function_call: None,
        refusal: None,
        reasoning_content: None,
        finish_reason: None,
        logprobs: None,
    }
}

/// An empty streaming choice for `index`, the base that every emitted chunk is filled in
/// from.
///
/// There are no log probabilities on purpose: once a choice is rewritten, its text no
/// longer lines up token for token with what the backend sent.
pub fn empty_choice(index: u32) -> (choice: ChatChoiceStream)
    ensures
        choice.deep_view() == empty_choice_view(index),
{
    ChatChoiceStream {
        index,
        delta: ChatCompletionStreamResponseDelta {
            role: None,
            content: None,
            tool_calls: None,
            function_call: None,
            refusal: None,
            reasoning_content: None,
        },
        finish_reason: None,
        logprobs: None,
    }
}

/// The identifier of a tool call: `call-` and a random UUID.
pub open spec fn is_call_id(id: Seq<char>) -> bool {
    &&& id.len() == 41
    &&& id.take(5) == "call-"@
    &&& is_uuid_text(id.skip(5))
}

/// The identifier that this UUID makes.
pub fn call_id(uuid: &str) -> (id: String)
    ensures
        id@ == "call-"@ + uuid@,
        is_uuid_text(uuid@) ==> is_call_id(id@),
{
    let mut id: String = "call-".to_owned();
    id.append(uuid);
    proof {
        reveal_strlit("call-");
        assert(id@.take(5) =~= "call-"@);
        assert(id@.skip(5) =~= uuid@);
    }
    id
}

/// A fresh identifier for a tool call. The parser gives none: they are the serving
/// layer's to mint.
pub fn mint_call_id() -> (id: String)
    ensures
        is_call_id(id@),
{
    let uuid = random_uuid_text();
    call_id(uuid.as_str())
}

/// The chunk that one delta becomes. A call's opening chunk carries its identifier, its
/// type and its name; a chunk without an identifier only adds arguments.
pub open spec fn chunk_view(index: u32, delta: DeltaView, id: Option<Seq<char>>) -> ChoiceView {
    match delta {
        DeltaView::Text(text) => ChoiceView {
            content: Some(ContentView::Text(text)),
            ..empty_choice_view(index)
        },
        DeltaView::Reasoning(text) => ChoiceView {
            reasoning_content: Some(text),
            ..empty_choice_view(index)
        },
        DeltaView::ToolCall(call) => ChoiceView {
            tool_calls: Some(
                seq![
                    ToolChunkView {
                        index: call.tool_index as u32,
                        id,
                        kind: if id is Some {
                            Some(FunctionType::Function)
                        } else {
                            None
                        },
                        function: Some(
                            FunctionView {
                                name: if id is Some {
                                    call.name
                                } else {
                                    None
                                },
                                arguments: Some(call.arguments),
                            },
                        ),
                    },
                ],
            ),
            ..empty_choice_view(index)
        },
    }
}

/// Writes one delta into a streaming choice for `index`. For a tool-call delta that opens
/// its call, `id` is the call's identifier; for every other delta there is none.
pub fn chunk(index: u32, delta: UnifiedDelta, id: Option<String>) -> (choice: ChatChoiceStream)
    ensures
        choice.deep_view() == chunk_view(index, delta.deep_view(), id.deep_view()),
{
    let mut choice = empty_choice(index);
    match delta {
        UnifiedDelta::Text { text } => {
            choice.delta.content = Some(ChatCompletionMessageContent::Text(text));
        },
        UnifiedDelta::Reasoning { text } => {
            choice.delta.reasoning_content = Some(text);
        },
        UnifiedDelta::ToolCall(call) => {
            let opens = id.is_some();
            let mut calls: Vec<ChatCompletionMessageToolCallChunk> = Vec::new();
            calls.push(
                ChatCompletionMessageToolCallChunk {
                    index: #[verifier::truncate] (call.tool_index as u32),
                    id,
                    kind: if opens {
                        Some(FunctionType::Function)
                    } else {
                        None
                    },
                    function: Some(
                        FunctionCallStream {
                            name: if opens {
                                call.name
                            } else {
                                None
                            },
                            arguments: Some(call.arguments),
                        },
                    ),
                },
            );
            choice.delta.tool_calls = Some(calls);
            assert(choice.deep_view().tool_calls->0 =~= chunk_view(
                index,
                delta.deep_view(),
                id.deep_view(),
            ).tool_calls->0);
        },
    }
    choice
}

// --- what becomes of a choice ----------------------------------------------------

/// What has become of a choice so far.
#[verifier::ext_equal]
pub struct Progress {
    /// The calls whose opening chunk has gone out.
    pub opened: Set<usize>,
    /// Whether any tool-call chunk has gone out.
    pub tool_emitted: bool,
    /// Whether the parser has been given up.
    pub failed: bool,
}

/// The progress of a choice that has seen nothing.
pub open spec fn no_progress() -> Progress {
    Progress { opened: Set::empty(), tool_emitted: false, failed: false }
}

/// `delta` is a fragment of the call `tool_index`.
pub open spec fn is_call_to(delta: DeltaView, tool_index: usize) -> bool {
    delta matches DeltaView::ToolCall(call) && call.tool_index == tool_index
}

/// `delta` opens its call: no chunk of that call has gone out yet.
pub open spec fn opens(opened: Set<usize>, delta: DeltaView) -> bool {
    delta matches DeltaView::ToolCall(call) && !opened.contains(call.tool_index)
}

/// Some call has been opened.
pub open spec fn some_call_is_open(opened: Set<usize>) -> bool {
    exists|tool_index: usize| #[trigger] opened.contains(tool_index)
}

/// Some delta of the run is a call fragment.
pub open spec fn has_call(deltas: Seq<DeltaView>) -> bool {
    exists|j: int| 0 <= j < deltas.len() && #[trigger] deltas[j] is ToolCall
}

/// The opened calls once the chunks of `deltas` have gone out too.
pub open spec fn opened_after(opened: Set<usize>, deltas: Seq<DeltaView>) -> Set<usize> {
    Set::new(
        |tool_index: usize|
            opened.contains(tool_index) || exists|j: int|
                0 <= j < deltas.len() && is_call_to(#[trigger] deltas[j], tool_index),
    )
}

/// The progress once the chunks of `deltas` have gone out too.
pub open spec fn progress_after(progress: Progress, deltas: Seq<DeltaView>) -> Progress {
    Progress {
        opened: opened_after(progress.opened, deltas),
        tool_emitted: progress.tool_emitted || has_call(deltas),
        failed: progress.failed,
    }
}

/// The chunk of one delta, and what becomes of the choice: the chunk opens the delta's
/// call, under some identifier, when no chunk of that call has gone out.
pub open spec fn is_conversion(
    before: Progress,
    index: u32,
    delta: DeltaView,
    after: Progress,
    chunk: ChoiceView,
) -> bool {
    &&& after == progress_after(before, seq![delta])
    &&& exists|id: Seq<char>| #[trigger]
        is_call_id(id) && chunk == chunk_view(
            index,
            delta,
            if opens(before.opened, delta) {
                Some(id)
            } else {
                None
            },
        )
}

/// The terminating reason as the client is to see it: a choice that has emitted tool
/// calls and stopped has stopped for its tool calls. Every other reason stands.
pub open spec fn normalized(reason: Option<FinishReason>, tool_emitted: bool) -> Option<
    FinishReason,
> {
    if reason == Some(FinishReason::Stop) && tool_emitted {
        Some(FinishReason::ToolCalls)
    } else {
        reason
    }
}

/// The chunk of the `k`-th delta of a run. The first chunk carries the original's role
/// and refusal, the last one the terminating reason.
pub open spec fn framed_chunk(
    progress: Progress,
    original: ChoiceView,
    deltas: Seq<DeltaView>,
    reason: Option<FinishReason>,
    ids: Seq<Seq<char>>,
    k: int,
) -> ChoiceView {
    let id = if opens(opened_after(progress.opened, deltas.take(k)), deltas[k]) {
        Some(ids[k])
    } else {
        None
    };
    ChoiceView {
        role: if k == 0 {
            original.role
        } else {
            None
        },
        refusal: if k == 0 {
            original.refusal
        } else {
            None
        },
        finish_reason: if k + 1 == deltas.len() {
            normalized(reason, progress_after(progress, deltas).tool_emitted)
        } else {
            None
        },
        ..chunk_view(original.index, deltas[k], id)
    }
}

/// The chunks that a run of deltas becomes: one for each delta, in their order. An empty
/// run still becomes one chunk when there is a role, a refusal or a terminating reason
/// to deliver.
pub open spec fn rewritten(
    progress: Progress,
    original: ChoiceView,
    deltas: Seq<DeltaView>,
    reason: Option<FinishReason>,
    ids: Seq<Seq<char>>,
) -> Seq<ChoiceView> {
    if deltas.len() > 0 {
        Seq::new(
            deltas.len(),
            |k: int| framed_chunk(progress, original, deltas, reason, ids, k),
        )
    } else if original.role is Some || original.refusal is Some || reason is Some {
        seq![
            ChoiceView {
                role: original.role,
                refusal: original.refusal,
                finish_reason: normalized(reason, progress.tool_emitted),
                ..empty_choice_view(original.index)
            },
        ]
    } else {
        seq![]
    }
}

/// `ids` holds `count` call identifiers.
pub open spec fn are_call_ids(ids: Seq<Seq<char>>, count: nat) -> bool {
    &&& ids.len() == count
    &&& forall|k: int| 0 <= k < count ==> is_call_id(#[trigger] ids[k])
}

/// `chunks` is what the run of deltas becomes, whatever identifiers were minted.
pub open spec fn is_rewriting(
    progress: Progress,
    original: ChoiceView,
    deltas: Seq<DeltaView>,
    reason: Option<FinishReason>,
    chunks: Seq<ChoiceView>,
) -> bool {
    exists|ids: Seq<Seq<char>>| #[trigger]
        are_call_ids(ids, coalesced(deltas).len()) && chunks == rewritten(
            progress,
            original,
            coalesced(deltas),
            reason,
            ids,
        )
}

// --- the parser ------------------------------------------------------------------

/// What the parser of a choice is advanced with.
pub enum Advance {
    /// A piece of decoded text.
    Chunk(Seq<char>),
    /// The end of the stream.
    End,
}

/// The call that advances a parser, with the parser's reply.
pub open spec fn advance_call(advance: Advance, reply: ParserReply) -> ParserExchange {
    match advance {
        Advance::Chunk(chunk) => ParserExchange::Pushed { chunk, reply },
        Advance::End => ParserExchange::Finished { reply },
    }
}

/// The reply of a call that advanced a parser.
pub open spec fn reply_of(call: ParserExchange) -> ParserReply {
    match call {
        ParserExchange::Pushed { chunk: _, reply } => reply,
        ParserExchange::Finished { reply } => reply,
        _ => ParserReply::Failed,
    }
}

/// The text that an advance brings.
pub open spec fn advance_text(advance: Advance) -> Seq<char> {
    match advance {
        Advance::Chunk(chunk) => chunk,
        Advance::End => seq![],
    }
}

/// The calls that are made on the parser of a choice to advance it: none once the parser
/// has been given up; else the advance itself, and a reset when the parser refuses it.
pub open spec fn are_advance_calls(
    failed: bool,
    advance: Advance,
    calls: Seq<ParserExchange>,
) -> bool {
    if failed {
        calls.len() == 0
    } else {
        ||| {
            &&& calls.len() == 1
            &&& reply_of(calls[0]) is Deltas
            &&& calls[0] == advance_call(advance, reply_of(calls[0]))
        }
        ||| {
            &&& calls.len() == 2
            &&& calls[0] == advance_call(advance, ParserReply::Failed)
            &&& calls[1] is Reset
        }
    }
}

/// What is shown of a parser that is given up: the text that it still held, or, when it
/// held none, the text that it was given last.
pub open spec fn recovered_text(unconsumed: Seq<char>, fallback: Seq<char>) -> Seq<char> {
    if unconsumed.len() == 0 {
        fallback
    } else {
        unconsumed
    }
}

/// The deltas that an advance yields, given the calls made on the parser.
pub open spec fn advance_deltas(
    failed: bool,
    advance: Advance,
    calls: Seq<ParserExchange>,
) -> Seq<DeltaView> {
    if failed {
        text_deltas(advance_text(advance))
    } else {
        match reply_of(calls[0]) {
            ParserReply::Deltas(deltas) => deltas,
            ParserReply::Failed => text_deltas(
                recovered_text(calls[1]->unconsumed, advance_text(advance)),
            ),
        }
    }
}

/// Whether the parser has been given up after an advance.
pub open spec fn fails_after(failed: bool, calls: Seq<ParserExchange>) -> bool {
    failed || calls.len() == 2
}

/// The calls made on a parser between two points of its transcript.
pub open spec fn calls_since(
    before: Seq<ParserExchange>,
    after: Seq<ParserExchange>,
) -> Seq<ParserExchange> {
    after.skip(before.len() as int)
}

/// How many of the calls made for a chunk belong to the chunk's text.
pub open spec fn push_count(
    failed: bool,
    text: Option<Seq<char>>,
    calls: Seq<ParserExchange>,
) -> int {
    if failed || text is None {
        0
    } else if reply_of(calls[0]) is Deltas {
        1
    } else {
        2
    }
}

/// Whether the parser has been given up once the chunk's text has been pushed.
pub open spec fn fails_after_push(
    failed: bool,
    text: Option<Seq<char>>,
    calls: Seq<ParserExchange>,
) -> bool {
    failed || push_count(failed, text, calls) == 2
}

/// The calls that are made on a parser for one upstream chunk: its text is pushed, when
/// it has any, and the stream is finished, when this chunk ends it.
pub open spec fn are_chunk_calls(
    failed: bool,
    text: Option<Seq<char>>,
    ends: bool,
    calls: Seq<ParserExchange>,
) -> bool {
    let pushed = push_count(failed, text, calls);
    &&& pushed <= calls.len()
    &&& text matches Some(chunk) ==> are_advance_calls(
        failed,
        Advance::Chunk(chunk),
        calls.take(pushed),
    )
    &&& if ends {
        are_advance_calls(
            fails_after_push(failed, text, calls),
            Advance::End,
            calls.skip(pushed),
        )
    } else {
        calls.len() == pushed
    }
}

/// The deltas that one upstream chunk yields: those of its text, then those of the end.
pub open spec fn chunk_deltas(
    failed: bool,
    text: Option<Seq<char>>,
    ends: bool,
    calls: Seq<ParserExchange>,
) -> Seq<DeltaView> {
    let pushed = push_count(failed, text, calls);
    let of_text = match text {
        Some(chunk) => advance_deltas(failed, Advance::Chunk(chunk), calls.take(pushed)),
        None => seq![],
    };
    if ends {
        of_text + advance_deltas(
            fails_after_push(failed, text, calls),
            Advance::End,
            calls.skip(pushed),
        )
    } else {
        of_text
    }
}

/// Whether the parser has been given up after one upstream chunk.
pub open spec fn fails_after_chunk(
    failed: bool,
    text: Option<Seq<char>>,
    ends: bool,
    calls: Seq<ParserExchange>,
) -> bool {
    let pushed = push_count(failed, text, calls);
    if ends {
        fails_after(fails_after_push(failed, text, calls), calls.skip(pushed))
    } else {
        fails_after_push(failed, text, calls)
    }
}

/// The plain text of a chunk.
pub open spec fn plain_text(choice: ChoiceView) -> Option<Seq<char>> {
    match choice.content {
        Some(ContentView::Text(text)) => Some(text),
        _ => None,
    }
}

/// `chunks`, or one empty chunk when there are none: what rides on an upstream chunk
/// must still reach the client.
pub open spec fn at_least_one(chunks: Seq<ChoiceView>, index: u32) -> Seq<ChoiceView> {
    if chunks.len() == 0 {
        seq![empty_choice_view(index)]
    } else {
        chunks
    }
}

/// What a choice is to the stream: what has become of it, the calls made on its parser,
/// and the error for which the parser was given up, until that has been handed out.
#[verifier::ext_equal]
pub struct Slot {
    pub progress: Progress,
    pub calls: Seq<ParserExchange>,
    pub failure: Option<anyhow::Error>,
}

/// The error that a choice keeps: the one for which its parser has just been given up,
/// which is the refusal of the last call before the reset, or else the one that it kept
/// before.
pub open spec fn keeps_failure(before: Slot, after: Slot) -> bool {
    if !before.progress.failed && after.progress.failed {
        after.failure matches Some(error) && refusal(error) == after.calls.drop_last()
    } else {
        after.failure == before.failure
    }
}

/// One upstream chunk `original` takes a choice from `before` to `after` and becomes
/// `out`. `ends` tells whether this chunk ends the choice.
pub open spec fn is_chunk_step(
    before: Slot,
    original: ChoiceView,
    ends: bool,
    after: Slot,
    out: Seq<ChoiceView>,
) -> bool {
    let failed = before.progress.failed;
    let text = plain_text(original);
    let calls = calls_since(before.calls, after.calls);
    let deltas = chunk_deltas(failed, text, ends, calls);
    let fed = Progress {
        failed: fails_after_chunk(failed, text, ends, calls),
        ..before.progress
    };
    &&& after.calls == before.calls + calls
    &&& are_chunk_calls(failed, text, ends, calls)
    &&& after.progress == progress_after(fed, coalesced(deltas))
    &&& keeps_failure(before, after)
    &&& exists|chunks: Seq<ChoiceView>| #[trigger]
        is_rewriting(fed, original, deltas, original.finish_reason, chunks) && out == at_least_one(
            chunks,
            original.index,
        )
}

/// The end of the stream takes a choice that no chunk has terminated from `before` to
/// `after` and becomes `out`. A choice that has emitted tool calls, the last deltas
/// included, terminates with `ToolCalls`.
pub open spec fn is_end_step(before: Slot, index: u32, after: Slot, out: Seq<ChoiceView>) -> bool {
    let failed = before.progress.failed;
    let calls = calls_since(before.calls, after.calls);
    let deltas = advance_deltas(failed, Advance::End, calls);
    let fed = Progress { failed: fails_after(failed, calls), ..before.progress };
    let reason = if after.progress.tool_emitted {
        Some(FinishReason::ToolCalls)
    } else {
        None
    };
    &&& after.calls == before.calls + calls
    &&& are_advance_calls(failed, Advance::End, calls)
    &&& after.progress == progress_after(fed, coalesced(deltas))
    &&& keeps_failure(before, after)
    &&& is_rewriting(fed, empty_choice_view(index), deltas, reason, out)
}

/// Streaming state of one response choice: its parser, and what the streaming tool-call
/// format needs to know of the chunks already sent. One state serves one choice of one
/// request.
pub struct ChoiceState {
    /// The parser of this choice.
    pub parser: ParserHandle,
    /// Tool indices whose opening chunk has already gone out.
    pub opened_calls: HashSet<usize>,
    /// Whether any tool-call chunk was emitted; turns a terminal `Stop` into `ToolCalls`.
    pub tool_emitted: bool,
    /// The parser failed. Later text passes through as it is: a parser's fault must not
    /// turn a served answer into an error.
    pub failed: bool,
    /// The error with which the parser failed, until it has been handed out.
    pub failure: Option<anyhow::Error>,
}

/// The calls that setting up a parser comes to when it is refused: its creation, or its
/// initialization after that.
pub open spec fn is_refused_set_up(
    family: Seq<char>,
    tools: Seq<ToolView>,
    prefill: UnifiedParserPrefill,
    mode: ModeView,
    calls: Seq<ParserExchange>,
) -> bool {
    ||| calls == seq![ParserExchange::Created { family, tools }]
    ||| calls == seq![
        ParserExchange::Created { family, tools },
        ParserExchange::Initialized { prefill, mode, accepted: false },
    ]
}

impl ChoiceState {
    /// What has become of this choice so far.
    pub open spec fn progress(&self) -> Progress {
        Progress {
            opened: self.opened_calls@,
            tool_emitted: self.tool_emitted,
            failed: self.failed,
        }
    }

    /// What this choice is to the stream.
    pub open spec fn slot(&self) -> Slot {
        Slot {
            progress: self.progress(),
            calls: transcript(self.parser),
            failure: self.failure,
        }
    }

    /// A tool-call chunk has gone out exactly when some call has been opened.
    pub open spec fn wf(&self) -> bool {
        self.tool_emitted == some_call_is_open(self.opened_calls@)
    }

    /// The state of a new choice. The parser sees the family and the tools, then the
    /// prefill and the output mode; it may refuse either.
    pub fn new(
        family: &str,
        tools: &Vec<Tool>,
        prefill: UnifiedParserPrefill,
        mode: UnifiedToolOutputMode<'_>,
    ) -> (result: Result<ChoiceState, UnifiedParserError>)
        ensures
            match result {
                Ok(state) => {
                    &&& state.wf()
                    &&& state.progress() == no_progress()
                    &&& state.failure is None
                    &&& transcript(state.parser) == seq![
                        ParserExchange::Created { family: family@, tools: tools.deep_view() },
                        ParserExchange::Initialized {
                            prefill,
                            mode: mode.deep_view(),
                            accepted: true,
                        },
                    ]
                },
                Err(error) => error matches UnifiedParserError::Parser(cause) && is_refused_set_up(
                    family@,
                    tools.deep_view(),
                    prefill,
                    mode.deep_view(),
                    refusal(cause),
                ),
            },
    {
        match create_parser(family, tools) {
            Ok(created) => {
                let mut parser = created;
                match initialize_parser(&mut parser, prefill, mode) {
                    Ok(()) => {
                        let state = ChoiceState {
                            parser,
                            opened_calls: HashSet::new(),
                            tool_emitted: false,
                            failed: false,
                            failure: None,
                        };
                        assert(transcript(state.parser) =~= seq![
                            ParserExchange::Created { family: family@, tools: tools.deep_view() },
                            ParserExchange::Initialized {
                                prefill,
                                mode: mode.deep_view(),
                                accepted: true,
                            },
                        ]);
                        Ok(state)
                    },
                    Err(error) => {
                        assert(refusal(error) =~= seq![
                            ParserExchange::Created { family: family@, tools: tools.deep_view() },
                            ParserExchange::Initialized {
                                prefill,
                                mode: mode.deep_view(),
                                accepted: false,
                            },
                        ]);
                        Err(UnifiedParserError::Parser(error))
                    },
                }
            },
            Err(error) => Err(UnifiedParserError::Parser(error)),
        }
    }

    /// Feeds one piece of decoded text through the parser.
    pub fn push(&mut self, text: &str) -> (deltas: Vec<UnifiedDelta>)
        ensures
            ({
                let advance = Advance::Chunk(text@);
                let before = transcript(old(self).parser);
                let calls = calls_since(before, transcript(final(self).parser));
                &&& transcript(final(self).parser) == before + calls
                &&& are_advance_calls(old(self).failed, advance, calls)
                &&& deltas.deep_view() == advance_deltas(old(self).failed, advance, calls)
                &&& final(self).progress() == Progress {
                    failed: fails_after(old(self).failed, calls),
                    ..old(self).progress()
                }
                &&& keeps_failure(old(self).slot(), final(self).slot())
            }),
    {
        let ghost before = transcript(self.parser);
        if self.failed {
            assert(before.skip(before.len() as int) =~= seq![]);
            assert(before + seq![] =~= before);
            return text_delta(text.to_owned());
        }
        match push_parser(&mut self.parser, text) {
            Ok(deltas) => {
                assert(before.push(transcript(self.parser).last()) =~= transcript(self.parser));
                assert(calls_since(before, transcript(self.parser)) =~= seq![
                    transcript(self.parser).last(),
                ]);
                assert(before + calls_since(before, transcript(self.parser)) =~= transcript(
                    self.parser,
                ));
                deltas
            },
            Err(error) => {
                let ghost middle = transcript(self.parser);
                let deltas = self.give_up(text);
                self.failure = Some(error);
                assert(transcript(self.parser).drop_last() =~= middle);
                assert(calls_since(before, transcript(self.parser)) =~= seq![
                    middle.last(),
                    transcript(self.parser).last(),
                ]);
                assert(before + calls_since(before, transcript(self.parser)) =~= transcript(
                    self.parser,
                ));
                deltas
            },
        }
    }

    /// Has the parser flush what it holds at the end of the stream.
    pub fn finish(&mut self) -> (deltas: Vec<UnifiedDelta>)
        ensures
            ({
                let advance = Advance::End;
                let before = transcript(old(self).parser);
                let calls = calls_since(before, transcript(final(self).parser));
                &&& transcript(final(self).parser) == before + calls
                &&& are_advance_calls(old(self).failed, advance, calls)
                &&& deltas.deep_view() == advance_deltas(old(self).failed, advance, calls)
                &&& final(self).progress() == Progress {
                    failed: fails_after(old(self).failed, calls),
                    ..old(self).progress()
                }
                &&& keeps_failure(old(self).slot(), final(self).slot())
            }),
    {
        let ghost before = transcript(self.parser);
        if self.failed {
            assert(before.skip(before.len() as int) =~= seq![]);
            assert(before + seq![] =~= before);
            let none: Vec<UnifiedDelta> = Vec::new();
            assert(none.deep_view() =~= text_deltas(seq![]));
            return none;
        }
        match finish_parser(&mut self.parser) {
            Ok(deltas) => {
                assert(calls_since(before, transcript(self.parser)) =~= seq![
                    transcript(self.parser).last(),
                ]);
                assert(before + calls_since(before, transcript(self.parser)) =~= transcript(
                    self.parser,
                ));
                deltas
            },
            Err(error) => {
                let ghost middle = transcript(self.parser);
                let deltas = self.give_up("");
                self.failure = Some(error);
                assert(transcript(self.parser).drop_last() =~= middle);
                proof {
                    reveal_strlit("");
                    assert(""@ =~= seq![]);
                    assert(calls_since(before, transcript(self.parser)) =~= seq![
                        middle.last(),
                        transcript(self.parser).last(),
                    ]);
                    assert(before + calls_since(before, transcript(self.parser)) =~= transcript(
                        self.parser,
                    ));
                }
                deltas
            },
        }
    }

    /// Stops using the parser and shows whatever it was holding.
    ///
    /// Dropping that text would silently cut the answer short. When the parser held
    /// nothing, the text that broke it is shown instead, so that it is not lost either.
    pub fn give_up(&mut self, fallback: &str) -> (deltas: Vec<UnifiedDelta>)
        ensures
            final(self).progress() == (Progress { failed: true, ..old(self).progress() }),
            final(self).failure == old(self).failure,
            ({
                let call = transcript(final(self).parser).last();
                &&& transcript(final(self).parser) == transcript(old(self).parser).push(call)
                &&& call matches ParserExchange::Reset { unconsumed } && deltas.deep_view()
                    == text_deltas(recovered_text(unconsumed, fallback@))
            }),
    {
        self.failed = true;
        let unconsumed = reset_parser(&mut self.parser);
        recovered_delta(unconsumed, fallback)
    }

    /// Hands out the error with which the parser failed, once.
    pub fn take_failure(&mut self) -> (failure: Option<anyhow::Error>)
        ensures
            failure == old(self).failure,
            final(self).slot() == (Slot { failure: None, ..old(self).slot() }),
            old(self).wf() ==> final(self).wf(),
    {
        self.failure.take()
    }

    /// Writes one ordered delta into a streaming choice for `index`.
    ///
    /// The first chunk of a tool index carries an identifier, a type and a name, later
    /// ones only arguments. Parsers mint no identifiers, so one is minted here for each
    /// call, exactly once.
    pub fn delta_to_choice(&mut self, index: u32, delta: UnifiedDelta) -> (choice: ChatChoiceStream)
        ensures
            is_conversion(
                old(self).progress(),
                index,
                delta.deep_view(),
                final(self).progress(),
                choice.deep_view(),
            ),
            final(self).parser == old(self).parser,
            final(self).failure == old(self).failure,
            old(self).wf() ==> final(self).wf(),
    {
        let ghost before = self.progress();
        let ghost view = delta.deep_view();
        let ghost some_id = a_call_id();
        let mut id: Option<String> = None;
        if let UnifiedDelta::ToolCall(call) = &delta {
            self.tool_emitted = true;
            let first: bool = self.opened_calls.insert(call.tool_index);
            if first {
                id = Some(mint_call_id());
            }
            assert(is_call_to(seq![view][0], call.tool_index));
            assert(self.opened_calls@.contains(call.tool_index));
        }
        proof {
            lemma_one_delta(before, view);
            assert(self.progress() =~= progress_after(before, seq![view]));
            assert(is_call_id(if id is Some { id->0@ } else { some_id }));
        }
        chunk(index, delta, id)
    }

    /// The terminating reason to report. Once a choice has emitted tool calls, `Stop` is
    /// reported as `ToolCalls`; `Length` and `ContentFilter` say why generation stopped
    /// and are kept as they are.
    pub fn normalize_finish_reason(&self, finish_reason: Option<FinishReason>) -> (reason: Option<
        FinishReason,
    >)
        ensures
            reason == normalized(finish_reason, self.tool_emitted),
    {
        match finish_reason {
            Some(FinishReason::Stop) => if self.tool_emitted {
                Some(FinishReason::ToolCalls)
            } else {
                finish_reason
            },
            _ => finish_reason,
        }
    }

    /// Turns an ordered run of deltas into the streaming choices that it becomes.
    ///
    /// Role and refusal ride on the first choice and the terminating reason on the last,
    /// so that a client that reassembles the stream sees the envelope it would have seen
    /// without the parser.
    pub fn choices_for(
        &mut self,
        original: &ChatChoiceStream,
        deltas: Vec<UnifiedDelta>,
        finish_reason: Option<FinishReason>,
    ) -> (choices: Vec<ChatChoiceStream>)
        ensures
            is_rewriting(
                old(self).progress(),
                original.deep_view(),
                deltas.deep_view(),
                finish_reason,
                choices.deep_view(),
            ),
            final(self).progress() == progress_after(
                old(self).progress(),
                coalesced(deltas.deep_view()),
            ),
            final(self).parser == old(self).parser,
            final(self).failure == old(self).failure,
            old(self).wf() ==> final(self).wf(),
    {
        let ghost start = self.progress();
        let ghost from = original.deep_view();
        let deltas = coalesce(deltas);
        let ghost views = deltas.deep_view();
        let index: u32 = original.index;
        let count: usize = deltas.len();
        let mut choices: Vec<ChatChoiceStream> = Vec::new();
        let ghost mut ids: Seq<Seq<char>> = seq![];
        let mut position: usize = 0;
        assert(progress_after(start, views.take(0)) =~= start);
        for delta in it: deltas.into_iter()
            invariant
                it.seq() == deltas@,
                views == deltas.deep_view(),
                count == views.len(),
                position == it.index(),
                index == original.index,
                from == original.deep_view(),
                self.progress() == progress_after(start, views.take(it.index() as int)),
                self.parser == old(self).parser,
                self.failure == old(self).failure,
                old(self).wf() ==> self.wf(),
                are_call_ids(ids, it.index() as nat),
                choices@.len() == it.index(),
                forall|k: int|
                    0 <= k < it.index() ==> (#[trigger] choices@[k]).deep_view() == framed_chunk(
                        start,
                        from,
                        views,
                        finish_reason,
                        ids,
                        k,
                    ),
        {
            let ghost k = it.index() as int;
            let ghost here = self.progress();
            assert(views[k] == delta.deep_view());
            let ghost view = delta.deep_view();
            let mut choice = self.delta_to_choice(index, delta);
            let ghost id = choose|id: Seq<char>| #[trigger]
                is_call_id(id) && choice.deep_view() == chunk_view(
                    index,
                    view,
                    if opens(here.opened, view) {
                        Some(id)
                    } else {
                        None
                    },
                );
            let ghost before_ids = ids;
            proof {
                ids = ids.push(id);
                lemma_next_delta(start, views, k);
            }
            if position == 0 {
                choice.delta.role = original.delta.role;
                choice.delta.refusal = original.delta.refusal.clone();
            }
            if position + 1 == count {
                assert(views.take(k + 1) =~= views);
                choice.finish_reason = self.normalize_finish_reason(finish_reason);
            }
            assert(choice.deep_view() == framed_chunk(start, from, views, finish_reason, ids, k));
            choices.push(choice);
            assert forall|j: int| 0 <= j < k + 1 implies (#[trigger] choices@[j]).deep_view()
                == framed_chunk(start, from, views, finish_reason, ids, j) by {
                if j < k {
                    assert(ids[j] == before_ids[j]);
                }
            }
            position = position + 1;
        }
        assert(views.take(views.len() as int) =~= views);
        if choices.len() == 0 && (original.delta.role.is_some() || original.delta.refusal.is_some()
            || finish_reason.is_some()) {
            let mut choice = empty_choice(index);
            choice.delta.role = original.delta.role;
            choice.delta.refusal = original.delta.refusal.clone();
            choice.finish_reason = self.normalize_finish_reason(finish_reason);
            choices.push(choice);
        }
        assert(choices.deep_view() =~= rewritten(start, from, views, finish_reason, ids));
        choices
    }

    /// Takes one upstream chunk of this choice: its text goes through the parser, and
    /// when the chunk ends the choice, the parser is finished. A chunk from which nothing
    /// comes becomes an empty choice, so that what rides on it still reaches the client.
    pub fn take_chunk(&mut self, original: &ChatChoiceStream, ends: bool) -> (choices: Vec<
        ChatChoiceStream,
    >)
        ensures
            is_chunk_step(
                old(self).slot(),
                original.deep_view(),
                ends,
                final(self).slot(),
                choices.deep_view(),
            ),
            choices@.len() > 0,
            old(self).wf() ==> final(self).wf(),
    {
        let ghost start = self.slot();
        let ghost from = original.deep_view();
        let ghost text = plain_text(from);
        let mut deltas: Vec<UnifiedDelta> = Vec::new();
        assert(deltas.deep_view() =~= seq![]);
        if let Some(ChatCompletionMessageContent::Text(chunk)) = &original.delta.content {
            deltas = self.push(chunk.as_str());
        }
        let ghost middle = self.slot();
        let ghost of_text = deltas.deep_view();
        let ghost first = calls_since(start.calls, middle.calls);
        if ends {
            let mut rest = self.finish();
            let ghost of_end = rest.deep_view();
            deltas.append(&mut rest);
            assert(deltas.deep_view() =~= of_text + of_end);
        }
        let ghost last = calls_since(middle.calls, self.slot().calls);
        let ghost calls = calls_since(start.calls, self.slot().calls);
        let ghost fed = self.progress();
        proof {
            assert(first =~= start.calls.skip(start.calls.len() as int) || text is Some);
            assert(start.calls + first =~= middle.calls);
            assert(middle.calls + last =~= self.slot().calls);
            assert(calls =~= first + last);
            assert(calls.take(first.len() as int) =~= first);
            assert(calls.skip(first.len() as int) =~= last);
            assert(first.len() == push_count(start.progress.failed, text, calls));
            assert(start.calls + calls =~= self.slot().calls);
        }
        proof {
            let failed = start.progress.failed;
            assert(are_chunk_calls(failed, text, ends, calls));
            assert(deltas.deep_view() =~= chunk_deltas(failed, text, ends, calls));
            assert(fed =~= Progress {
                failed: fails_after_chunk(failed, text, ends, calls),
                ..start.progress
            });
        }
        let mut choices = self.choices_for(original, deltas, original.finish_reason);
        let ghost chunks = choices.deep_view();
        assert(is_rewriting(fed, from, deltas.deep_view(), from.finish_reason, chunks));
        if choices.len() == 0 {
            choices.push(empty_choice(original.index));
        }
        assert(choices.deep_view() =~= at_least_one(chunks, original.index));
        choices
    }

    /// Ends this choice, which no upstream chunk has terminated.
    ///
    /// A choice that has emitted tool calls terminates with `ToolCalls` even though the
    /// backend never sent a terminating reason: a strict client waits for one before it
    /// takes a call as complete.
    pub fn take_end(&mut self, index: u32) -> (choices: Vec<ChatChoiceStream>)
        ensures
            is_end_step(old(self).slot(), index, final(self).slot(), choices.deep_view()),
            old(self).wf() ==> final(self).wf(),
    {
        let deltas = self.finish();
        let ghost views = deltas.deep_view();
        let emitted: bool = self.tool_emitted || contains_call(&deltas);
        let finish_reason: Option<FinishReason> = if emitted {
            Some(FinishReason::ToolCalls)
        } else {
            None
        };
        let base = empty_choice(index);
        proof {
            lemma_coalescing_keeps_calls(views);
        }
        self.choices_for(&base, deltas, finish_reason)
    }
}

/// Coalescing neither makes nor loses a call fragment.
proof fn lemma_coalescing_keeps_calls(deltas: Seq<DeltaView>)
    ensures
        has_call(coalesced(deltas)) == has_call(deltas),
    decreases deltas.len(),
{
    if deltas.len() != 0 {
        let front = deltas.drop_last();
        let out = coalesced(front);
        let after = coalesced(deltas);
        lemma_coalescing_keeps_calls(front);
        if has_call(deltas) {
            let j = choose|j: int| 0 <= j < deltas.len() && #[trigger] deltas[j] is ToolCall;
            if j < front.len() {
                assert(front[j] is ToolCall);
                let i = choose|i: int| 0 <= i < out.len() && #[trigger] out[i] is ToolCall;
                assert(after[i] is ToolCall);
            } else {
                assert(after.last() is ToolCall);
            }
        }
        if has_call(after) {
            let i = choose|i: int| 0 <= i < after.len() && #[trigger] after[i] is ToolCall;
            if i < out.len() && after[i] == out[i] {
                let j = choose|j: int| 0 <= j < front.len() && #[trigger] front[j] is ToolCall;
                assert(deltas[j] is ToolCall);
            } else {
                assert(deltas.last() is ToolCall);
            }
        }
    }
}

/// Whether some delta of the run is a call fragment.
fn contains_call(deltas: &Vec<UnifiedDelta>) -> (found: bool)
    ensures
        found == has_call(deltas.deep_view()),
{
    let mut k: usize = 0;
    while k < deltas.len()
        invariant
            k <= deltas.len(),
            forall|j: int| 0 <= j < k ==> !(#[trigger] deltas.deep_view()[j] is ToolCall),
        decreases deltas.len() - k,
    {
        if let UnifiedDelta::ToolCall(_) = &deltas[k] {
            assert(deltas.deep_view()[k as int] is ToolCall);
            return true;
        }
        k = k + 1;
    }
    false
}

/// Some call identifier.
spec fn a_call_id() -> Seq<char> {
    "call-"@ + Seq::new(
        36,
        |i: int|
            if i == 8 || i == 13 || i == 18 || i == 23 {
                '-'
            } else if i == 14 {
                '4'
            } else {
                '8'
            },
    )
}

proof fn lemma_one_delta(progress: Progress, delta: DeltaView)
    ensures
        progress_after(progress, seq![delta]) == (match delta {
            DeltaView::ToolCall(call) => Progress {
                opened: progress.opened.insert(call.tool_index),
                tool_emitted: true,
                failed: progress.failed,
            },
            _ => progress,
        }),
        is_call_id(a_call_id()),
{
    let run = seq![delta];
    assert(run[0] == delta);
    match delta {
        DeltaView::ToolCall(call) => {
            assert(opened_after(progress.opened, run) =~= progress.opened.insert(call.tool_index));
        },
        _ => {
            assert(opened_after(progress.opened, run) =~= progress.opened);
        },
    }
    reveal_strlit("call-");
    let id = a_call_id();
    assert(id.take(5) =~= "call-"@);
    let uuid = id.skip(5);
    assert forall|i: int| 0 <= i < 36 implies if i == 8 || i == 13 || i == 18 || i == 23 {
        #[trigger] uuid[i] == '-'
    } else {
        is_lower_hex(uuid[i])
    } by {
        assert(uuid[i] == id[i + 5]);
    }
}

proof fn lemma_next_delta(progress: Progress, deltas: Seq<DeltaView>, k: int)
    requires
        0 <= k < deltas.len(),
    ensures
        progress_after(progress, deltas.take(k + 1)) == progress_after(
            progress_after(progress, deltas.take(k)),
            seq![deltas[k]],
        ),
{
    let less = deltas.take(k);
    let more = deltas.take(k + 1);
    lemma_one_delta(progress_after(progress, less), deltas[k]);
    assert(more[k] == deltas[k]);
    assert forall|j: int| 0 <= j < k implies less[j] == #[trigger] more[j] by {}
    assert(has_call(more) == (has_call(less) || deltas[k] is ToolCall)) by {
        if has_call(less) {
            let j = choose|j: int| 0 <= j < less.len() && #[trigger] less[j] is ToolCall;
            assert(more[j] is ToolCall);
        }
        if has_call(more) {
            let j = choose|j: int| 0 <= j < more.len() && #[trigger] more[j] is ToolCall;
            if j < k {
                assert(less[j] is ToolCall);
            }
        }
    }
    let step = progress_after(progress_after(progress, less), seq![deltas[k]]);
    assert forall|i: usize| opened_after(progress.opened, more).contains(i) == step.opened.contains(
        i,
    ) by {
        if exists|j: int| 0 <= j < less.len() && is_call_to(#[trigger] less[j], i) {
            let j = choose|j: int| 0 <= j < less.len() && is_call_to(#[trigger] less[j], i);
            assert(is_call_to(more[j], i));
        }
        if exists|j: int| 0 <= j < more.len() && is_call_to(#[trigger] more[j], i) {
            let j = choose|j: int| 0 <= j < more.len() && is_call_to(#[trigger] more[j], i);
            if j < k {
                assert(is_call_to(less[j], i));
            }
        }
    }
    assert(opened_after(progress.opened, more) =~= step.opened);
}

/// The delta that shows what a given-up parser was holding, or else the text it was given
/// last.
pub fn recovered_delta(unconsumed: String, fallback: &str) -> (deltas: Vec<UnifiedDelta>)
    ensures
        deltas.deep_view() == text_deltas(recovered_text(unconsumed@, fallback@)),
{
    if unconsumed.as_str().is_empty() {
        text_delta(fallback.to_owned())
    } else {
        text_delta(unconsumed)
    }
}

} // verus!
