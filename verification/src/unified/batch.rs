//! A whole turn at once: the events of a complete output folded into one message.

use vstd::prelude::*;

use super::choice::{is_call_id, is_refused_set_up, mint_call_id};
use super::outside::{
    create_parser, initialize_parser, json_text, json_to_string, parse_complete_parser, refusal,
    transcript, ParserExchange, ParserHandle,
};
use super::request::{detect_prefill, prefill_of};
use super::types::{EventView, FunctionType, ModeView, Tool, UnifiedEvent, UnifiedToolOutputMode};
use super::UnifiedParserError;

verus! {

/// The function that a tool call names, with its arguments as JSON text.
#[derive(Debug, PartialEq, Eq)]
pub struct FunctionCall {
    pub name: String,
    pub arguments: String,
}

/// One tool call of a message.
#[derive(Debug, PartialEq, Eq)]
pub struct ChatCompletionMessageToolCall {
    pub id: String,
    pub kind: FunctionType,
    pub function: FunctionCall,
}

/// What one complete output comes to.
#[derive(Debug, PartialEq, Eq)]
pub struct CompleteOutput {
    pub text: String,
    pub reasoning: String,
    pub tool_calls: Vec<ChatCompletionMessageToolCall>,
}

/// All text of the turn, in order.
pub open spec fn text_of(events: Seq<EventView>) -> Seq<char>
    decreases events.len(),
{
    if events.len() == 0 {
        seq![]
    } else {
        text_of(events.drop_last()) + match events.last() {
            EventView::Text(text) => text,
            _ => seq![],
        }
    }
}

/// All reasoning of the turn, in order, run together: a message has one place for it.
pub open spec fn reasoning_of(events: Seq<EventView>) -> Seq<char>
    decreases events.len(),
{
    if events.len() == 0 {
        seq![]
    } else {
        reasoning_of(events.drop_last()) + match events.last() {
            EventView::Reasoning(text) => text,
            _ => seq![],
        }
    }
}

/// The calls of the turn, in order.
pub open spec fn calls_of(events: Seq<EventView>) -> Seq<EventView> {
    events.filter(|event: EventView| event is ToolCall)
}

/// `call` is the message's form of this call event. The arguments are written out anew,
/// so their formatting is normalised.
pub open spec fn is_call_of(call: ChatCompletionMessageToolCall, event: EventView) -> bool {
    &&& is_call_id(call.id@)
    &&& call.kind == FunctionType::Function
    &&& event matches EventView::ToolCall { name, arguments } && call.function.name@ == name
        && json_text(arguments) == Some(call.function.arguments@)
}

/// `output` is what the events of a turn come to.
pub open spec fn is_message_of(output: CompleteOutput, events: Seq<EventView>) -> bool {
    &&& output.text@ == text_of(events)
    &&& output.reasoning@ == reasoning_of(events)
    &&& output.tool_calls@.len() == calls_of(events).len()
    &&& forall|k: int|
        0 <= k < output.tool_calls@.len() ==> is_call_of(
            #[trigger] output.tool_calls@[k],
            calls_of(events)[k],
        )
}

/// Some call's arguments cannot be written out.
pub open spec fn has_unwritable_call(events: Seq<EventView>) -> bool {
    exists|j: int|
        0 <= j < events.len() && (#[trigger] events[j] matches EventView::ToolCall {
            name,
            arguments,
        } && json_text(arguments) is None)
}

/// Folds the events of a turn into one message.
///
/// Stretches of reasoning are run together, because a message has a single place for
/// them: the order that the parser recovered survives in a stream, where a client can act
/// on it.
pub fn fold_events(events: Vec<UnifiedEvent>) -> (result: Result<CompleteOutput, UnifiedParserError>)
    ensures
        match result {
            Ok(output) => !has_unwritable_call(events.deep_view()) && is_message_of(
                output,
                events.deep_view(),
            ),
            Err(error) => error is Arguments && has_unwritable_call(events.deep_view()),
        },
{
    let ghost views = events.deep_view();
    let mut text = String::new();
    let mut reasoning = String::new();
    let mut tool_calls: Vec<ChatCompletionMessageToolCall> = Vec::new();
    assert(views.take(0) =~= seq![]);
    assert(calls_of(views.take(0)) =~= seq![]) by {
        reveal(Seq::filter);
    }
    for event in it: events.into_iter()
        invariant
            it.seq() == events@,
            views == events.deep_view(),
            text@ == text_of(views.take(it.index() as int)),
            reasoning@ == reasoning_of(views.take(it.index() as int)),
            tool_calls@.len() == calls_of(views.take(it.index() as int)).len(),
            forall|k: int|
                0 <= k < tool_calls@.len() ==> is_call_of(
                    #[trigger] tool_calls@[k],
                    calls_of(views.take(it.index() as int))[k],
                ),
            forall|j: int|
                0 <= j < it.index() ==> (#[trigger] views[j] matches EventView::ToolCall {
                    name,
                    arguments,
                } ==> json_text(arguments) is Some),
    {
        let ghost j = it.index() as int;
        let ghost before = views.take(j);
        proof {
            assert(views[j] == event.deep_view());
            assert(views.take(j + 1).drop_last() =~= before);
            assert(views.take(j + 1).last() == views[j]);
            reveal(Seq::filter);
        }
        match event {
            UnifiedEvent::Text { text: chunk } => {
                text.append(chunk.as_str());
                assert(reasoning@ + Seq::<char>::empty() =~= reasoning@);
            },
            UnifiedEvent::Reasoning { text: chunk } => {
                reasoning.append(chunk.as_str());
                assert(text@ + Seq::<char>::empty() =~= text@);
            },
            UnifiedEvent::ToolCall { name, arguments } => {
                assert(text@ + Seq::<char>::empty() =~= text@);
                assert(reasoning@ + Seq::<char>::empty() =~= reasoning@);
                match json_to_string(&arguments) {
                    Ok(written) => {
                        tool_calls.push(
                            ChatCompletionMessageToolCall {
                                id: mint_call_id(),
                                kind: FunctionType::Function,
                                function: FunctionCall { name, arguments: written },
                            },
                        );
                        assert(calls_of(views.take(j + 1)) =~= calls_of(before).push(views[j]));
                    },
                    Err(error) => {
                        assert(views[j] is ToolCall);
                        return Err(UnifiedParserError::Arguments(error));
                    },
                }
            },
        }
    }
    assert(views.take(views.len() as int) =~= views);
    Ok(CompleteOutput { text, reasoning, tool_calls })
}

// --- laws of the message ---------------------------------------------------------

proof fn lemma_text_of_two_runs(left: Seq<EventView>, right: Seq<EventView>)
    ensures
        text_of(left + right) == text_of(left) + text_of(right),
        reasoning_of(left + right) == reasoning_of(left) + reasoning_of(right),
    decreases right.len(),
{
    if right.len() == 0 {
        assert(left + right =~= left);
        assert(text_of(left) + text_of(right) =~= text_of(left));
        assert(reasoning_of(left) + reasoning_of(right) =~= reasoning_of(left));
    } else {
        assert((left + right).drop_last() =~= left + right.drop_last());
        lemma_text_of_two_runs(left, right.drop_last());
        assert(text_of(left + right) =~= text_of(left) + text_of(right));
        assert(reasoning_of(left + right) =~= reasoning_of(left) + reasoning_of(right));
    }
}

proof fn lemma_calls_of_two_runs(left: Seq<EventView>, right: Seq<EventView>)
    ensures
        calls_of(left + right) == calls_of(left) + calls_of(right),
    decreases right.len(),
{
    reveal(Seq::filter);
    if right.len() == 0 {
        assert(left + right =~= left);
        assert(calls_of(left) + calls_of(right) =~= calls_of(left));
    } else {
        assert((left + right).drop_last() =~= left + right.drop_last());
        lemma_calls_of_two_runs(left, right.drop_last());
        assert(calls_of(left + right) =~= calls_of(left) + calls_of(right));
    }
}

/// Whatever a turn is made of, its text, its reasoning and its calls are those of its
/// first part followed by those of its second: what comes later takes nothing away.
pub proof fn law_a_message_grows_event_by_event(left: Seq<EventView>, right: Seq<EventView>)
    ensures
        text_of(left + right) == text_of(left) + text_of(right),
        reasoning_of(left + right) == reasoning_of(left) + reasoning_of(right),
        calls_of(left + right) == calls_of(left) + calls_of(right),
{
    lemma_text_of_two_runs(left, right);
    lemma_calls_of_two_runs(left, right);
}

/// One event adds to its own channel, all that it holds, and to no other; no event adds
/// nothing.
pub proof fn law_an_event_adds_to_its_channel_alone(event: EventView)
    ensures
        text_of(seq![]) == Seq::<char>::empty(),
        reasoning_of(seq![]) == Seq::<char>::empty(),
        calls_of(seq![]) == Seq::<EventView>::empty(),
        text_of(seq![event]) == (if event is Text {
            event->Text_0
        } else {
            seq![]
        }),
        reasoning_of(seq![event]) == (if event is Reasoning {
            event->Reasoning_0
        } else {
            seq![]
        }),
        calls_of(seq![event]) == (if event is ToolCall {
            seq![event]
        } else {
            seq![]
        }),
{
    let none: Seq<EventView> = seq![];
    let one = seq![event];
    reveal(Seq::filter);
    reveal_with_fuel(text_of, 2);
    reveal_with_fuel(reasoning_of, 2);
    assert(one.drop_last() =~= none);
    assert(text_of(none) =~= seq![]);
    assert(reasoning_of(none) =~= seq![]);
    assert(calls_of(none) =~= seq![]);
    assert(text_of(one) =~= if event is Text {
        event->Text_0
    } else {
        seq![]
    });
    assert(reasoning_of(one) =~= if event is Reasoning {
        event->Reasoning_0
    } else {
        seq![]
    });
    assert(calls_of(one) =~= if event is ToolCall {
        seq![event]
    } else {
        seq![]
    });
}

/// A message holds the text, the reasoning and the calls of its turn, each call with its
/// name, its arguments written out and an identifier.
pub proof fn law_a_message_holds_the_whole_turn(
    output: CompleteOutput,
    events: Seq<EventView>,
    k: int,
)
    requires
        is_message_of(output, events),
    ensures
        output.text@ == text_of(events),
        output.reasoning@ == reasoning_of(events),
        output.tool_calls@.len() == calls_of(events).len(),
        0 <= k < calls_of(events).len() ==> {
            let call = output.tool_calls@[k];
            &&& call.function.name@ == calls_of(events)[k]->name
            &&& json_text(calls_of(events)[k]->arguments) == Some(call.function.arguments@)
            &&& call.kind is Function
            &&& is_call_id(call.id@)
        },
{
    if 0 <= k < calls_of(events).len() {
        assert(is_call_of(output.tool_calls@[k], calls_of(events)[k]));
    }
}

/// A turn cannot be folded exactly when one of its calls has arguments that cannot be
/// written out.
pub proof fn law_only_unwritable_arguments_stop_a_turn(events: Seq<EventView>)
    ensures
        has_unwritable_call(events) <==> exists|j: int|
            0 <= j < events.len() && #[trigger] events[j] is ToolCall && json_text(
                events[j]->arguments,
            ) is None,
{
    if has_unwritable_call(events) {
        let j = choose|j: int|
            0 <= j < events.len() && (#[trigger] events[j] matches EventView::ToolCall {
                name,
                arguments,
            } && json_text(arguments) is None);
        assert(events[j] is ToolCall && json_text(events[j]->arguments) is None);
    }
}

// --- the whole output ------------------------------------------------------------

/// The calls that a parser for a complete `qwen3` output has seen, when it gave `events`,
/// or when it refused the output.
pub open spec fn complete_calls(content: Seq<char>, events: Option<Seq<EventView>>) -> Seq<
    ParserExchange,
> {
    seq![
        ParserExchange::Created { family: "qwen3"@, tools: seq![] },
        ParserExchange::Initialized {
            prefill: prefill_of(content),
            mode: ModeView::Native,
            accepted: true,
        },
        ParserExchange::ParsedComplete { content, events },
    ]
}

/// The calls that parsing a complete output comes to when the parser refuses: it cannot be
/// created for the family or, for `qwen3`, it refuses the prefill or the output.
pub open spec fn is_refused_parse(
    family: Seq<char>,
    content: Seq<char>,
    calls: Seq<ParserExchange>,
) -> bool {
    ||| calls == seq![ParserExchange::Created { family, tools: seq![] }]
    ||| family == "qwen3"@ && is_refused_set_up(
        family,
        seq![],
        prefill_of(content),
        ModeView::Native,
        calls,
    )
    ||| family == "qwen3"@ && calls == complete_calls(content, None)
}

/// Some parser, set up for this output, gave these events for it.
pub open spec fn is_parsed_to(content: Seq<char>, events: Seq<EventView>) -> bool {
    exists|parser: ParserHandle| #[trigger] transcript(parser) == complete_calls(
        content,
        Some(events),
    )
}

/// Parses one complete output: the same parser that serves a stream takes it whole, and
/// the events it gives are folded into the message.
pub fn parse_complete(family: &str, content: &str) -> (result: Result<
    CompleteOutput,
    UnifiedParserError,
>)
    ensures
        match result {
            Ok(output) => family@ == "qwen3"@ && exists|events: Seq<EventView>| #[trigger]
                is_parsed_to(content@, events) && !has_unwritable_call(events) && is_message_of(
                    output,
                    events,
                ),
            Err(UnifiedParserError::Arguments(_)) => family@ == "qwen3"@ && exists|
                events: Seq<EventView>,
            | #[trigger]
                is_parsed_to(content@, events) && has_unwritable_call(events),
            Err(UnifiedParserError::NoPrefillDetector { family: name }) => family@ != "qwen3"@
                && name@ == family@,
            Err(UnifiedParserError::Parser(cause)) => is_refused_parse(
                family@,
                content@,
                refusal(cause),
            ),
        },
{
    let no_tools: Vec<Tool> = Vec::new();
    assert(no_tools.deep_view() =~= seq![]);
    let mut parser = match create_parser(family, &no_tools) {
        Ok(created) => created,
        Err(error) => {
            return Err(UnifiedParserError::Parser(error));
        },
    };
    let prefill = match detect_prefill(family, content) {
        Ok(prefill) => prefill,
        Err(error) => {
            return Err(error);
        },
    };
    if let Err(error) = initialize_parser(&mut parser, prefill, UnifiedToolOutputMode::Native) {
        assert(refusal(error) =~= seq![
            ParserExchange::Created { family: family@, tools: seq![] },
            ParserExchange::Initialized { prefill, mode: ModeView::Native, accepted: false },
        ]);
        return Err(UnifiedParserError::Parser(error));
    }
    match parse_complete_parser(&mut parser, content) {
        Ok(events) => {
            let ghost views = events.deep_view();
            proof {
                assert(transcript(parser) =~= complete_calls(content@, Some(views)));
                assert(is_parsed_to(content@, views));
            }
            fold_events(events)
        },
        Err(error) => {
            assert(refusal(error) =~= complete_calls(content@, None));
            Err(UnifiedParserError::Parser(error))
        },
    }
}

/// A complete output is parsed by a parser that was made without tools, told the channel
/// that the output itself shows, left in its own markup, and given the output once and
/// whole.
pub proof fn law_a_complete_output_is_parsed_once_and_whole(
    content: Seq<char>,
    events: Option<Seq<EventView>>,
)
    ensures
        ({
            let calls = complete_calls(content, events);
            &&& calls.len() == 3
            &&& calls[0] matches ParserExchange::Created { family, tools } && family == "qwen3"@
                && tools.len() == 0
            &&& calls[1] matches ParserExchange::Initialized { prefill, mode, accepted } && prefill
                == prefill_of(content) && mode is Native && accepted
            &&& calls[2] matches ParserExchange::ParsedComplete { content: whole, events: given }
                && whole == content && given == events
        }),
{
}

/// Events that a complete output is parsed to came from such a parser, for that output.
pub proof fn law_parsed_events_came_from_a_parser(content: Seq<char>, events: Seq<EventView>)
    requires
        is_parsed_to(content, events),
    ensures
        exists|parser: ParserHandle|
            {
                let calls = #[trigger] transcript(parser);
                &&& calls.len() == 3
                &&& calls[0] matches ParserExchange::Created { family, tools } && family
                    == "qwen3"@ && tools.len() == 0
                &&& calls[1] matches ParserExchange::Initialized { prefill, mode, accepted }
                    && prefill == prefill_of(content) && mode is Native && accepted
                &&& calls[2] matches ParserExchange::ParsedComplete { content: whole, events: given }
                    && whole == content && given == Some(events)
            },
{
    let parser = choose|parser: ParserHandle| #[trigger]
        transcript(parser) == complete_calls(content, Some(events));
    assert(transcript(parser).len() == 3);
}

/// What a parser refuses is its own making, the channel or the output, and the latter two
/// only for the family that has a rule for channels.
pub proof fn law_a_refused_output_was_refused_by_its_parser(
    family: Seq<char>,
    content: Seq<char>,
    calls: Seq<ParserExchange>,
)
    requires
        is_refused_parse(family, content, calls),
    ensures
        1 <= calls.len() <= 3,
        calls[0] matches ParserExchange::Created { family: made, tools } && made == family
            && tools.len() == 0,
        calls.len() > 1 ==> family == "qwen3"@ && (calls[1] matches ParserExchange::Initialized {
            prefill,
            mode,
            accepted,
        } && prefill == prefill_of(content) && mode is Native && (accepted <==> calls.len() == 3)),
        calls.len() == 3 ==> (calls[2] matches ParserExchange::ParsedComplete {
            content: whole,
            events,
        } && whole == content && events is None),
{
}

} // verus!
