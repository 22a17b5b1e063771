//! One choice: deltas, chunks, and a parser that fails.

use dynamo_serving::unified::choice::{
    call_id, chunk, empty_choice, mint_call_id, recovered_delta, ChoiceState,
};
use dynamo_serving::unified::deltas::{coalesce, text_delta};
use dynamo_serving::unified::request::QWEN3_UNIFIED_FAMILY;
use dynamo_serving::unified::types::{
    ChatCompletionMessageContent, FinishReason, FunctionType, Role, Tool, ToolCallDelta,
    UnifiedDelta, UnifiedParserPrefill, UnifiedToolOutputMode,
};
use dynamo_serving::unified::UnifiedParserError;

fn call_delta(tool_index: usize, name: Option<&str>, arguments: &str) -> UnifiedDelta {
    UnifiedDelta::ToolCall(ToolCallDelta {
        tool_index,
        name: name.map(str::to_string),
        arguments: arguments.to_string(),
    })
}

fn text(text: &str) -> UnifiedDelta {
    UnifiedDelta::Text {
        text: text.to_string(),
    }
}

fn reasoning(text: &str) -> UnifiedDelta {
    UnifiedDelta::Reasoning {
        text: text.to_string(),
    }
}

fn state_of(family: &str) -> ChoiceState {
    ChoiceState::new(
        family,
        &Vec::new(),
        UnifiedParserPrefill::Unopened,
        UnifiedToolOutputMode::Native,
    )
    .expect("unified parser")
}

fn test_state() -> ChoiceState {
    state_of(QWEN3_UNIFIED_FAMILY)
}

#[test]
fn each_delta_becomes_its_own_chunk_in_order() {
    // A thought that followed a call stays after it.
    let mut state = test_state();
    let base = empty_choice(0);
    let choices = state.choices_for(
        &base,
        vec![
            reasoning("look it up"),
            call_delta(0, Some("get_weather"), r#"{"city":"Tokyo"}"#),
            reasoning("now answer"),
            text("It's 18C."),
        ],
        Some(FinishReason::Stop),
    );

    assert_eq!(choices.len(), 4, "one chunk per delta: {choices:?}");
    assert_eq!(
        choices[0].delta.reasoning_content.as_deref(),
        Some("look it up")
    );
    assert!(choices[1].delta.tool_calls.is_some());
    assert_eq!(
        choices[2].delta.reasoning_content.as_deref(),
        Some("now answer"),
        "the second thought must stay AFTER the call, not fuse with the first"
    );
    assert_eq!(
        choices[3].delta.content,
        Some(ChatCompletionMessageContent::Text("It's 18C.".into()))
    );
    // Only the last chunk terminates, and Stop became ToolCalls.
    assert_eq!(choices[3].finish_reason, Some(FinishReason::ToolCalls));
    assert!(choices[..3].iter().all(|c| c.finish_reason.is_none()));
}

#[test]
fn first_tool_chunk_opens_the_call_and_later_ones_only_add_arguments() {
    let mut state = test_state();
    let base = empty_choice(7);
    let choices = state.choices_for(
        &base,
        vec![
            call_delta(0, Some("get_weather"), r#"{"city":"#),
            call_delta(0, None, r#""Tokyo"}"#),
        ],
        None,
    );

    assert_eq!(choices.len(), 2);
    let first = &choices[0].delta.tool_calls.as_ref().unwrap()[0];
    assert_eq!(choices[0].index, 7, "the choice index is preserved");
    assert_eq!(first.index, 0, "the tool index is preserved");
    assert!(first.id.is_some(), "the opening chunk mints an id");
    assert_eq!(first.kind, Some(FunctionType::Function));
    assert_eq!(
        first.function.as_ref().unwrap().name.as_deref(),
        Some("get_weather")
    );

    let second = &choices[1].delta.tool_calls.as_ref().unwrap()[0];
    assert!(second.id.is_none(), "only the first chunk carries an id");
    assert!(second.kind.is_none());
    assert!(second.function.as_ref().unwrap().name.is_none());
    assert_eq!(
        second.function.as_ref().unwrap().arguments.as_deref(),
        Some(r#""Tokyo"}"#)
    );
}

#[test]
fn two_calls_get_distinct_ids_and_keep_their_indices() {
    let mut state = test_state();
    let base = empty_choice(0);
    let choices = state.choices_for(
        &base,
        vec![
            call_delta(0, Some("a"), "{}"),
            call_delta(1, Some("b"), "{}"),
        ],
        None,
    );

    let ids: Vec<_> = choices
        .iter()
        .map(|choice| {
            let call = &choice.delta.tool_calls.as_ref().unwrap()[0];
            (call.index, call.id.clone().expect("id"))
        })
        .collect();
    assert_eq!(ids[0].0, 0);
    assert_eq!(ids[1].0, 1);
    assert_ne!(ids[0].1, ids[1].1, "each call gets its own id");
}

#[test]
fn adjacent_same_kind_deltas_coalesce_but_calls_never_do() {
    let merged = coalesce(vec![
        text("he"),
        text("llo"),
        call_delta(0, Some("f"), "{"),
        call_delta(0, None, "}"),
        reasoning("a"),
        reasoning("b"),
    ]);
    assert_eq!(merged.len(), 4);
    assert_eq!(merged[0], text("hello"));
    assert_eq!(merged[1], call_delta(0, Some("f"), "{"));
    assert_eq!(merged[2], call_delta(0, None, "}"));
    assert_eq!(merged[3], reasoning("ab"));
}

#[test]
fn role_rides_the_first_chunk_and_finish_reason_the_last() {
    let mut state = test_state();
    let mut base = empty_choice(0);
    base.delta.role = Some(Role::Assistant);
    let choices = state.choices_for(
        &base,
        vec![text("a"), call_delta(0, Some("f"), "{}")],
        Some(FinishReason::Stop),
    );

    assert_eq!(choices[0].delta.role, Some(Role::Assistant));
    assert!(choices[1].delta.role.is_none());
    assert!(choices[0].finish_reason.is_none());
    assert_eq!(choices[1].finish_reason, Some(FinishReason::ToolCalls));
}

#[test]
fn an_empty_run_still_carries_the_terminating_envelope() {
    let mut state = test_state();
    let mut base = empty_choice(0);
    base.delta.role = Some(Role::Assistant);
    let choices = state.choices_for(&base, Vec::new(), Some(FinishReason::Length));

    assert_eq!(choices.len(), 1);
    assert_eq!(choices[0].delta.role, Some(Role::Assistant));
    assert_eq!(
        choices[0].finish_reason,
        Some(FinishReason::Length),
        "Length is not rewritten"
    );
}

#[test]
fn an_empty_run_with_no_envelope_emits_nothing() {
    let mut state = test_state();
    let base = empty_choice(0);
    assert!(state.choices_for(&base, Vec::new(), None).is_empty());
}

#[test]
fn a_failed_parser_surfaces_buffered_text_and_stops_parsing() {
    let mut state = test_state();
    // The parser releases the settled text at once and holds back only what could still
    // turn out to be a `<tool_call>` opener.
    assert_eq!(state.push("hello <tool_c"), vec![text("hello ")]);
    // Now force the failure path with that text still held.
    let recovered = state.give_up("");
    assert_eq!(
        recovered,
        vec![text("<tool_c")],
        "buffered bytes must be surfaced, not silently dropped"
    );
    assert!(state.failed);
    // Every later chunk now passes through as plain text.
    assert_eq!(state.push("more"), vec![text("more")]);
    assert!(state.finish().is_empty());
}

#[test]
fn give_up_falls_back_to_the_chunk_when_nothing_was_buffered() {
    let mut state = test_state();
    assert_eq!(
        state.give_up("the chunk that broke it"),
        vec![text("the chunk that broke it")]
    );
}

#[test]
fn a_refusal_rides_on_the_first_chunk_only() {
    let mut state = test_state();
    let mut base = empty_choice(2);
    base.delta.refusal = Some("no".to_string());
    let choices = state.choices_for(&base, vec![text("a"), reasoning("b")], None);
    assert_eq!(choices[0].delta.refusal.as_deref(), Some("no"));
    assert_eq!(choices[1].delta.refusal, None);
    assert_eq!(choices[1].index, 2);
    // With nothing else to say it is still delivered.
    let alone = state.choices_for(&base, Vec::new(), None);
    assert_eq!(alone.len(), 1);
    assert_eq!(alone[0].delta.refusal.as_deref(), Some("no"));
    assert_eq!(alone[0].delta.content, None);
}

#[test]
fn a_call_opened_in_one_run_is_not_opened_again_in_the_next() {
    let mut state = test_state();
    let base = empty_choice(0);
    let first = state.choices_for(&base, vec![call_delta(3, Some("f"), "{")], None);
    assert!(first[0].delta.tool_calls.as_ref().unwrap()[0].id.is_some());
    let second = state.choices_for(&base, vec![call_delta(3, Some("f"), "}")], None);
    let fragment = &second[0].delta.tool_calls.as_ref().unwrap()[0];
    assert_eq!(fragment.index, 3);
    assert_eq!(fragment.id, None);
    assert_eq!(fragment.kind, None);
    assert_eq!(fragment.function.as_ref().unwrap().name, None);
    assert!(state.opened_calls.contains(&3));
}

#[test]
fn only_stop_is_reported_as_tool_calls() {
    let mut state = test_state();
    for reason in [
        FinishReason::Stop,
        FinishReason::Length,
        FinishReason::ToolCalls,
        FinishReason::ContentFilter,
        FinishReason::FunctionCall,
    ] {
        assert_eq!(state.normalize_finish_reason(Some(reason)), Some(reason));
    }
    assert_eq!(state.normalize_finish_reason(None), None);
    state.tool_emitted = true;
    assert_eq!(
        state.normalize_finish_reason(Some(FinishReason::Stop)),
        Some(FinishReason::ToolCalls)
    );
    for reason in [
        FinishReason::Length,
        FinishReason::ToolCalls,
        FinishReason::ContentFilter,
        FinishReason::FunctionCall,
    ] {
        assert_eq!(state.normalize_finish_reason(Some(reason)), Some(reason));
    }
    assert_eq!(state.normalize_finish_reason(None), None);
}

#[test]
fn coalescing_twice_is_coalescing_once() {
    let run = || {
        vec![
            text("a"),
            text("b"),
            reasoning("c"),
            text("d"),
            reasoning("e"),
            reasoning("f"),
        ]
    };
    let once = coalesce(run());
    assert_eq!(
        once,
        vec![text("ab"), reasoning("c"), text("d"), reasoning("ef")]
    );
    assert_eq!(coalesce(coalesce(run())), once);
    assert!(coalesce(Vec::new()).is_empty());
}

#[test]
fn empty_text_makes_no_delta() {
    assert!(text_delta(String::new()).is_empty());
    assert_eq!(text_delta("x".to_string()), vec![text("x")]);
    assert!(recovered_delta(String::new(), "").is_empty());
    assert_eq!(recovered_delta("held".to_string(), "given"), vec![text("held")]);
    assert_eq!(recovered_delta(String::new(), "given"), vec![text("given")]);
}

#[test]
fn call_identifiers_are_call_and_a_random_uuid() {
    let id = mint_call_id();
    assert_eq!(id.len(), 41);
    assert!(id.starts_with("call-"));
    let uuid = &id[5..];
    for (place, c) in uuid.chars().enumerate() {
        match place {
            8 | 13 | 18 | 23 => assert_eq!(c, '-'),
            14 => assert_eq!(c, '4'),
            19 => assert!(matches!(c, '8' | '9' | 'a' | 'b')),
            _ => assert!(c.is_ascii_digit() || ('a'..='f').contains(&c)),
        }
    }
    assert_ne!(id, mint_call_id());
}

#[test]
fn a_call_identifier_is_its_uuid_with_a_prefix() {
    assert_eq!(call_id("12"), "call-12");
    assert_eq!(call_id(""), "call-");
}

#[test]
fn each_call_is_opened_once_over_many_conversions() {
    let mut state = test_state();
    let sequence = [
        (4, Some("a"), "{"),
        (9, Some("b"), "["),
        (4, Some("again"), "}"),
        (9, None, "]"),
        (4, None, ""),
    ];
    let mut opened: Vec<usize> = Vec::new();
    for (tool_index, name, arguments) in sequence {
        let choice = state.delta_to_choice(2, call_delta(tool_index, name, arguments));
        assert_eq!(choice.index, 2);
        let fragment = &choice.delta.tool_calls.as_ref().unwrap()[0];
        assert_eq!(fragment.index as usize, tool_index);
        let function = fragment.function.as_ref().unwrap();
        assert_eq!(function.arguments.as_deref(), Some(arguments));
        if opened.contains(&tool_index) {
            assert_eq!(fragment.id, None);
            assert_eq!(fragment.kind, None);
            assert_eq!(function.name, None);
        } else {
            assert!(fragment.id.as_ref().unwrap().starts_with("call-"));
            assert_eq!(fragment.kind, Some(FunctionType::Function));
            assert_eq!(function.name.as_deref(), name);
            opened.push(tool_index);
        }
    }
    assert_eq!(opened, vec![4, 9]);
}

#[test]
fn a_tool_index_wraps_to_the_width_of_the_wire() {
    let delta = call_delta(0x1_0000_0002, Some("f"), "{}");
    let choice = chunk(0, delta, Some("id".to_string()));
    let fragment = &choice.delta.tool_calls.as_ref().unwrap()[0];
    assert_eq!(fragment.index, 2);
    assert_eq!(fragment.id.as_deref(), Some("id"));
}

#[test]
fn an_unknown_family_has_no_parser() {
    let refused = ChoiceState::new(
        "no_such_family",
        &Vec::new(),
        UnifiedParserPrefill::Unopened,
        UnifiedToolOutputMode::Native,
    );
    assert!(matches!(refused, Err(UnifiedParserError::Parser(_))));
}

// --- a parser that fails ---------------------------------------------------------

/// Holds whatever follows a `<`, refuses `boom`, and fails at the end when told to.
struct Brittle {
    held: String,
    fails_at_the_end: bool,
    calls_at_the_end: bool,
}

impl dynamo_parsers_v2::UnifiedParser for Brittle {
    fn parse_into(
        &mut self,
        delta: &str,
        output: &mut dynamo_parsers_v2::UnifiedParserOutput,
    ) -> anyhow::Result<()> {
        if delta == "boom" {
            return Err(anyhow::Error::msg("refused"));
        }
        match delta.find('<') {
            Some(at) => {
                output.push_text(&delta[..at]);
                self.held.push_str(&delta[at..]);
            }
            None => output.push_text(delta),
        }
        Ok(())
    }

    fn finish(&mut self) -> anyhow::Result<dynamo_parsers_v2::UnifiedParserOutput> {
        if self.fails_at_the_end {
            return Err(anyhow::Error::msg("refused"));
        }
        let mut output = dynamo_parsers_v2::UnifiedParserOutput::default();
        if self.calls_at_the_end {
            output.push_call(dynamo_parsers_v2::ToolCallDelta {
                tool_index: 0,
                name: Some("late".to_string()),
                arguments: "{}".to_string(),
            });
        }
        Ok(output)
    }

    fn reset(&mut self) -> String {
        std::mem::take(&mut self.held)
    }
}

fn brittle(
    _tools: &[dynamo_parsers_v2::Tool],
) -> anyhow::Result<Box<dyn dynamo_parsers_v2::UnifiedParser>> {
    Ok(Box::new(Brittle {
        held: String::new(),
        fails_at_the_end: true,
        calls_at_the_end: false,
    }))
}

fn late_caller(
    _tools: &[dynamo_parsers_v2::Tool],
) -> anyhow::Result<Box<dyn dynamo_parsers_v2::UnifiedParser>> {
    Ok(Box::new(Brittle {
        held: String::new(),
        fails_at_the_end: false,
        calls_at_the_end: true,
    }))
}

fn picky(
    tools: &[dynamo_parsers_v2::Tool],
) -> anyhow::Result<Box<dyn dynamo_parsers_v2::UnifiedParser>> {
    if tools.len() == 1 && tools[0].name == "f" && tools[0].parameters.is_null() {
        brittle(tools)
    } else {
        Err(anyhow::Error::msg("refused"))
    }
}

#[test]
fn a_chunk_that_the_parser_refuses_is_shown_as_it_is() {
    dynamo_parsers_v2::register_unified_parser("brittle_a", brittle);
    let mut state = state_of("brittle_a");
    assert_eq!(state.push("fine"), vec![text("fine")]);
    assert!(state.take_failure().is_none());
    assert_eq!(state.push("boom"), vec![text("boom")]);
    assert!(state.failed);
    assert_eq!(state.take_failure().unwrap().to_string(), "refused");
    assert!(state.take_failure().is_none());
    assert!(state.failed);
    assert_eq!(state.push("a<b"), vec![text("a<b")]);
    assert!(state.push("").is_empty());
}

#[test]
fn what_the_parser_held_is_shown_when_it_refuses() {
    dynamo_parsers_v2::register_unified_parser("brittle_b", brittle);
    let mut state = state_of("brittle_b");
    assert_eq!(state.push("a<b"), vec![text("a")]);
    assert_eq!(state.push("boom"), vec![text("<b")]);
    assert!(state.failed);
}

#[test]
fn what_the_parser_held_is_shown_when_it_fails_at_the_end() {
    dynamo_parsers_v2::register_unified_parser("brittle_c", brittle);
    let mut state = state_of("brittle_c");
    assert!(state.push("<tail").is_empty());
    assert_eq!(state.finish(), vec![text("<tail")]);
    assert!(state.failed);
    assert_eq!(state.take_failure().unwrap().to_string(), "refused");
    assert!(state.finish().is_empty());

    let mut nothing_held = state_of("brittle_c");
    assert!(nothing_held.finish().is_empty());
    assert!(nothing_held.failed);
}

#[test]
fn a_terminating_chunk_whose_end_is_refused_loses_nothing() {
    dynamo_parsers_v2::register_unified_parser("brittle_e", brittle);
    let mut state = state_of("brittle_e");
    let mut original = empty_choice(0);
    original.delta.content = Some(ChatCompletionMessageContent::Text("a<b".to_string()));
    original.finish_reason = Some(FinishReason::Stop);
    let choices = state.take_chunk(&original, true);
    // What was said and what was held are both text, and run together.
    assert_eq!(choices.len(), 1);
    assert_eq!(
        choices[0].delta.content,
        Some(ChatCompletionMessageContent::Text("a<b".to_string()))
    );
    assert_eq!(choices[0].finish_reason, Some(FinishReason::Stop));
    assert!(state.failed);
}

#[test]
fn an_end_that_is_refused_loses_nothing() {
    dynamo_parsers_v2::register_unified_parser("brittle_f", brittle);
    let mut state = state_of("brittle_f");
    assert_eq!(state.push("a<b"), vec![text("a")]);
    let choices = state.take_end(1);
    assert_eq!(choices.len(), 1);
    assert_eq!(
        choices[0].delta.content,
        Some(ChatCompletionMessageContent::Text("<b".to_string()))
    );
    assert_eq!(choices[0].finish_reason, None);
}

#[test]
fn an_unterminated_choice_ends_with_tool_calls_even_for_a_late_call() {
    dynamo_parsers_v2::register_unified_parser("late_caller", late_caller);
    let mut state = state_of("late_caller");
    let choices = state.take_end(5);
    assert_eq!(choices.len(), 1);
    assert_eq!(choices[0].index, 5);
    assert!(choices[0].delta.tool_calls.is_some());
    assert_eq!(choices[0].finish_reason, Some(FinishReason::ToolCalls));
}

#[test]
fn an_unterminated_choice_without_calls_ends_silently() {
    let mut state = test_state();
    assert!(state.take_end(0).is_empty());
}

#[test]
fn a_parser_sees_the_tools_and_may_refuse_them() {
    dynamo_parsers_v2::register_unified_parser("picky", picky);
    let tool = Tool {
        name: "f".to_string(),
        description: None,
        parameters: serde_json::Value::Null,
        strict: None,
    };
    let accepted = ChoiceState::new(
        "picky",
        &vec![tool],
        UnifiedParserPrefill::Unopened,
        UnifiedToolOutputMode::Native,
    );
    assert!(accepted.is_ok());
    let refused = ChoiceState::new(
        "picky",
        &Vec::new(),
        UnifiedParserPrefill::Unopened,
        UnifiedToolOutputMode::Native,
    );
    assert!(matches!(refused, Err(UnifiedParserError::Parser(_))));
}

#[test]
fn a_parser_may_refuse_the_prefill_or_the_mode() {
    // This parser supports neither opened channels nor guided output.
    dynamo_parsers_v2::register_unified_parser("brittle_d", brittle);
    for prefill in [
        UnifiedParserPrefill::Reasoning,
        UnifiedParserPrefill::Response,
    ] {
        let refused = ChoiceState::new(
            "brittle_d",
            &Vec::new(),
            prefill,
            UnifiedToolOutputMode::Native,
        );
        assert!(matches!(refused, Err(UnifiedParserError::Parser(_))));
    }
    let refused = ChoiceState::new(
        "brittle_d",
        &Vec::new(),
        UnifiedParserPrefill::Unopened,
        UnifiedToolOutputMode::GuidedJson { named_tool: None },
    );
    assert!(matches!(refused, Err(UnifiedParserError::Parser(_))));
}

#[test]
fn a_chunk_from_which_nothing_comes_becomes_an_empty_choice() {
    let mut state = test_state();
    let mut original = empty_choice(4);
    original.delta.content = Some(ChatCompletionMessageContent::Text("<thi".to_string()));
    let choices = state.take_chunk(&original, false);
    assert_eq!(choices, vec![empty_choice(4)]);
}

#[test]
fn a_chunk_that_ends_the_choice_is_followed_by_what_was_held() {
    let mut state = test_state();
    let mut original = empty_choice(0);
    original.delta.content = Some(ChatCompletionMessageContent::Text("a <thi".to_string()));
    original.finish_reason = Some(FinishReason::Length);
    let choices = state.take_chunk(&original, true);
    let said: String = choices
        .iter()
        .filter_map(|choice| match &choice.delta.content {
            Some(ChatCompletionMessageContent::Text(text)) => Some(text.as_str()),
            _ => None,
        })
        .collect();
    assert_eq!(said, "a <thi");
    assert_eq!(
        choices.last().unwrap().finish_reason,
        Some(FinishReason::Length)
    );
}
