//! Whole streams, from upstream responses to what the client gets.

use dynamo_serving::unified::choice::{empty_choice, ChoiceState};
use dynamo_serving::unified::request::{to_v2_tools, QWEN3_UNIFIED_FAMILY};
use dynamo_serving::unified::stream::{
    response_with_choice, Annotated, ParserFailure, StreamResponse, UnifiedStream,
};
use dynamo_serving::unified::types::{
    ChatChoiceStream, ChatCompletionMessageContent, ChatCompletionStreamResponseDelta,
    FinishReason, Role, ToolChoice, ToolDefinition, UnifiedParserPrefill, UnifiedToolOutputMode,
};
use dynamo_serving::unified::UnifiedParserError;

type Response = Annotated<String, u64, String>;

fn choice(index: u32, text: &str, finish_reason: Option<FinishReason>) -> ChatChoiceStream {
    ChatChoiceStream {
        index,
        delta: ChatCompletionStreamResponseDelta {
            role: Some(Role::Assistant),
            content: Some(ChatCompletionMessageContent::Text(text.to_string())),
            tool_calls: None,
            function_call: None,
            refusal: None,
            reasoning_content: None,
        },
        finish_reason,
        logprobs: None,
    }
}

fn response(choices: Vec<ChatChoiceStream>) -> Response {
    Annotated {
        data: Some(StreamResponse {
            envelope: "test".to_string(),
            choices,
            accounting: None,
        }),
        annotation: None,
    }
}

fn chunk(text: &str, finish: bool) -> Response {
    let reason = if finish {
        Some(FinishReason::Stop)
    } else {
        None
    };
    response(vec![choice(0, text, reason)])
}

fn weather_tools() -> Vec<ToolDefinition> {
    vec![ToolDefinition {
        name: "get_weather".to_string(),
        parameters: Some(
            serde_json::from_str(
                r#"{
                    "type": "object",
                    "properties": {"city": {"type": "string"}},
                    "required": ["city"]
                }"#,
            )
            .unwrap(),
        ),
        strict: None,
    }]
}

fn named_choice(name: &str) -> ToolChoice {
    ToolChoice::Named {
        name: name.to_string(),
    }
}

fn stream_of(
    tools: Option<Vec<ToolDefinition>>,
    tool_choice: Option<ToolChoice>,
    uses_tool_call_structural_tag: bool,
    prefill: UnifiedParserPrefill,
    family: &str,
) -> UnifiedStream<String> {
    UnifiedStream::new(
        family,
        to_v2_tools(tools.as_deref()),
        tool_choice,
        uses_tool_call_structural_tag,
        prefill,
    )
}

fn plain_stream() -> UnifiedStream<String> {
    stream_of(
        None,
        None,
        false,
        UnifiedParserPrefill::Unopened,
        QWEN3_UNIFIED_FAMILY,
    )
}

fn apply_stream(
    upstream: Vec<Response>,
    tools: Option<Vec<ToolDefinition>>,
    tool_choice: Option<ToolChoice>,
    uses_tool_call_structural_tag: bool,
    prefill: UnifiedParserPrefill,
    family: &str,
) -> Vec<Response> {
    let mut stream = stream_of(
        tools,
        tool_choice,
        uses_tool_call_structural_tag,
        prefill,
        family,
    );
    let mut out: Vec<Response> = Vec::new();
    for response in upstream {
        out.append(&mut stream.on_response(response));
    }
    out.append(&mut stream.on_end());
    out
}

fn collect_choices(responses: &[Response]) -> Vec<&ChatChoiceStream> {
    responses
        .iter()
        .filter_map(|response| response.data.as_ref())
        .flat_map(|data| data.choices.iter())
        .collect()
}

fn content_of(choices: &[&ChatChoiceStream]) -> String {
    choices
        .iter()
        .filter_map(|choice| match &choice.delta.content {
            Some(ChatCompletionMessageContent::Text(text)) => Some(text.as_str()),
            _ => None,
        })
        .collect()
}

#[test]
fn structural_tag_keeps_required_on_native_markup() {
    // A structural tag holds generation to the markup, so `required` must not put the
    // parser into guided JSON.
    let output = "<think>reason</think>\
        <tool_call>\n<function=get_weather>\n\
        <parameter=city>Tokyo</parameter>\n</function>\n</tool_call>";
    let responses = apply_stream(
        vec![chunk(output, true)],
        Some(weather_tools()),
        Some(ToolChoice::Required),
        true,
        UnifiedParserPrefill::Unopened,
        QWEN3_UNIFIED_FAMILY,
    );

    let choices = collect_choices(&responses);
    let call = choices
        .iter()
        .filter_map(|choice| choice.delta.tool_calls.as_ref())
        .flatten()
        .next()
        .expect("a native tool call");
    let function = call.function.as_ref().expect("function");
    assert_eq!(function.name.as_deref(), Some("get_weather"));
    assert_eq!(function.arguments.as_deref(), Some(r#"{"city":"Tokyo"}"#));
}

#[test]
fn streams_ordered_reasoning_text_and_tool_calls() {
    let output = "<think>reason</think>answer \
        <tool_call>\n<function=get_weather>\n\
        <parameter=city>Tokyo</parameter>\n</function>\n</tool_call>";
    // Small chunks, so that markers straddle them.
    let mut chunks: Vec<_> = output
        .as_bytes()
        .chunks(7)
        .map(|bytes| chunk(std::str::from_utf8(bytes).unwrap(), false))
        .collect();
    chunks.push(chunk("", true));

    let responses = apply_stream(
        chunks,
        Some(weather_tools()),
        None,
        false,
        UnifiedParserPrefill::Unopened,
        QWEN3_UNIFIED_FAMILY,
    );

    let choices = collect_choices(&responses);
    let reasoning: String = choices
        .iter()
        .filter_map(|choice| choice.delta.reasoning_content.as_deref())
        .collect();
    let content = content_of(&choices);
    let arguments: String = choices
        .iter()
        .filter_map(|choice| choice.delta.tool_calls.as_ref())
        .flatten()
        .filter_map(|call| call.function.as_ref()?.arguments.as_deref())
        .collect();

    assert_eq!(reasoning, "reason");
    assert_eq!(content, "answer ");
    assert_eq!(
        serde_json::from_str::<serde_json::Value>(&arguments).unwrap()["city"],
        "Tokyo"
    );
    for marker in ["<think>", "<tool_call>", "<function=", "<parameter="] {
        assert!(
            !content.contains(marker),
            "raw markup {marker:?} leaked into content: {content:?}"
        );
    }
    assert_eq!(
        choices
            .iter()
            .filter_map(|choice| choice.finish_reason)
            .next_back(),
        Some(FinishReason::ToolCalls)
    );
}

#[test]
fn named_guided_json_becomes_a_tool_call() {
    let responses = apply_stream(
        vec![chunk("reason</think>{\"city\": \"Tokyo\"}", true)],
        Some(weather_tools()),
        Some(named_choice("get_weather")),
        false,
        UnifiedParserPrefill::Reasoning,
        QWEN3_UNIFIED_FAMILY,
    );

    let choices = collect_choices(&responses);
    assert_eq!(
        choices[0].delta.reasoning_content.as_deref(),
        Some("reason")
    );
    let call = &choices[1].delta.tool_calls.as_ref().unwrap()[0];
    let function = call.function.as_ref().unwrap();
    assert_eq!(function.name.as_deref(), Some("get_weather"));
    assert_eq!(
        function.arguments.as_deref(),
        Some("{\"city\": \"Tokyo\"}"),
        "a named choice passes the model's argument bytes through verbatim"
    );
    assert_eq!(choices[1].finish_reason, Some(FinishReason::ToolCalls));
}

#[test]
fn required_guided_json_becomes_a_tool_call() {
    let responses = apply_stream(
        vec![chunk(
            r#"reason</think>[{"name":"get_weather","parameters":{"city":"Tokyo"}}]"#,
            true,
        )],
        Some(weather_tools()),
        Some(ToolChoice::Required),
        false,
        UnifiedParserPrefill::Reasoning,
        QWEN3_UNIFIED_FAMILY,
    );

    let choices = collect_choices(&responses);
    let call = &choices[1].delta.tool_calls.as_ref().unwrap()[0];
    let function = call.function.as_ref().unwrap();
    assert_eq!(function.name.as_deref(), Some("get_weather"));
    assert_eq!(function.arguments.as_deref(), Some(r#"{"city":"Tokyo"}"#));
}

#[test]
fn already_parsed_choices_pass_through_untouched() {
    // A chunk that carries reasoning was parsed upstream; parsing it again would double
    // it.
    let mut pre_parsed = chunk("", false);
    let choice = &mut pre_parsed.data.as_mut().unwrap().choices[0];
    choice.delta.content = None;
    choice.delta.reasoning_content = Some("already".to_string());

    let responses = apply_stream(
        vec![pre_parsed],
        None,
        None,
        false,
        UnifiedParserPrefill::Unopened,
        QWEN3_UNIFIED_FAMILY,
    );

    let choices = collect_choices(&responses);
    assert_eq!(choices.len(), 1);
    assert_eq!(
        choices[0].delta.reasoning_content.as_deref(),
        Some("already")
    );
}

#[test]
fn a_stream_without_a_finish_reason_still_terminates_a_tool_call() {
    let output = "<tool_call>\n<function=get_weather>\n\
        <parameter=city>Tokyo</parameter>\n</function>\n</tool_call>";
    // No terminating chunk at all: the stream just ends.
    let responses = apply_stream(
        vec![chunk(output, false)],
        Some(weather_tools()),
        None,
        false,
        UnifiedParserPrefill::Unopened,
        QWEN3_UNIFIED_FAMILY,
    );

    let choices = collect_choices(&responses);
    assert_eq!(
        choices
            .iter()
            .filter_map(|choice| choice.finish_reason)
            .next_back(),
        Some(FinishReason::ToolCalls),
        "the backstop must synthesize a terminal reason or a strict client hangs"
    );
}

#[test]
fn text_only_stream_gets_no_synthetic_finish_reason() {
    let responses = apply_stream(
        vec![chunk("hello world", false)],
        None,
        None,
        false,
        UnifiedParserPrefill::Unopened,
        QWEN3_UNIFIED_FAMILY,
    );

    let choices = collect_choices(&responses);
    assert!(
        choices.iter().all(|choice| choice.finish_reason.is_none()),
        "there is no signal to synthesize a finish_reason from"
    );
}

#[test]
fn an_item_without_data_passes_untouched() {
    let mut stream = plain_stream();
    let item: Response = Annotated {
        data: None,
        annotation: Some("error".to_string()),
    };
    let out = stream.on_response(item);
    assert_eq!(out.len(), 1);
    assert!(out[0].data.is_none());
    assert_eq!(out[0].annotation.as_deref(), Some("error"));
    // Nothing was seen that could still be sent.
    assert!(stream.on_end::<u64, String>().is_empty());
}

#[test]
fn only_the_last_response_of_a_fan_out_carries_accounting_and_annotation() {
    let mut stream = plain_stream();
    let mut upstream = chunk("<think>a</think>b<think>c</think>d", true);
    upstream.data.as_mut().unwrap().accounting = Some(7);
    upstream.annotation = Some("event".to_string());
    let out = stream.on_response(upstream);
    assert_eq!(out.len(), 4);
    for (position, response) in out.iter().enumerate() {
        let data = response.data.as_ref().unwrap();
        assert_eq!(data.envelope, "test");
        assert_eq!(data.choices.len(), 1);
        let last = position == 3;
        assert_eq!(data.accounting, if last { Some(7) } else { None });
        assert_eq!(
            response.annotation.as_deref(),
            if last { Some("event") } else { None }
        );
        assert_eq!(
            data.choices[0].finish_reason,
            if last { Some(FinishReason::Stop) } else { None }
        );
        assert_eq!(
            data.choices[0].delta.role,
            if position == 0 {
                Some(Role::Assistant)
            } else {
                None
            }
        );
    }
}

#[test]
fn what_rides_on_a_chunk_survives_when_nothing_comes_of_its_text() {
    let mut stream = plain_stream();
    let mut upstream = chunk("<thi", false);
    {
        let data = upstream.data.as_mut().unwrap();
        data.choices[0].delta.role = None;
        data.accounting = Some(3);
    }
    let out = stream.on_response(upstream);
    assert_eq!(out.len(), 1);
    let data = out[0].data.as_ref().unwrap();
    assert_eq!(data.accounting, Some(3));
    assert_eq!(data.choices, vec![empty_choice(0)]);
}

#[test]
fn open_choices_end_before_the_usage_chunk_in_index_order() {
    let call = "<tool_call>\n<function=f>\n<parameter=a>1</parameter>\n</function>\n</tool_call>";
    let mut stream = plain_stream();
    let first = stream.on_response(response(vec![
        choice(2, call, None),
        choice(0, call, None),
        choice(1, "text", Some(FinishReason::Stop)),
    ]));
    assert!(!first.is_empty());

    let mut usage = response(Vec::new());
    usage.data.as_mut().unwrap().envelope = "usage".to_string();
    usage.data.as_mut().unwrap().accounting = Some(9);
    usage.annotation = Some("usage".to_string());
    let out = stream.on_response(usage);
    let ends: Vec<(u32, Option<FinishReason>)> = collect_choices(&out)
        .iter()
        .map(|choice| (choice.index, choice.finish_reason))
        .collect();
    assert_eq!(
        ends,
        vec![
            (0, Some(FinishReason::ToolCalls)),
            (2, Some(FinishReason::ToolCalls)),
        ]
    );
    let last = out.last().unwrap();
    assert!(last.data.as_ref().unwrap().choices.is_empty());
    assert_eq!(last.data.as_ref().unwrap().accounting, Some(9));
    assert_eq!(last.annotation.as_deref(), Some("usage"));
    for response in &out[..out.len() - 1] {
        assert_eq!(response.data.as_ref().unwrap().accounting, None);
        assert_eq!(response.annotation, None);
        assert_eq!(response.data.as_ref().unwrap().envelope, "usage");
    }
    // Each choice has ended: nothing is left for the end of the stream.
    assert!(stream.on_end::<u64, String>().is_empty());
}

#[test]
fn a_second_end_sends_nothing() {
    let call = "<tool_call>\n<function=f>\n<parameter=a>1</parameter>\n</function>\n</tool_call>";
    let mut stream = plain_stream();
    stream.on_response(chunk(call, false));
    assert_eq!(stream.on_end::<u64, String>().len(), 1);
    assert!(stream.on_end::<u64, String>().is_empty());
}

#[test]
fn choices_have_parsers_of_their_own() {
    let mut stream = plain_stream();
    stream.on_response(response(vec![choice(0, "<think>", None)]));
    let out = stream.on_response(response(vec![
        choice(1, "visible", None),
        choice(0, "hidden", None),
    ]));
    let choices = collect_choices(&out);
    assert_eq!(choices.len(), 2);
    assert_eq!(choices[0].index, 1);
    assert_eq!(content_of(&choices[..1]), "visible");
    assert_eq!(choices[1].index, 0);
    assert_eq!(
        choices[1].delta.reasoning_content.as_deref(),
        Some("hidden")
    );
}

#[test]
fn a_choice_without_a_parser_passes_as_it_is() {
    let mut stream = stream_of(
        None,
        None,
        false,
        UnifiedParserPrefill::Unopened,
        "no_such_family",
    );
    let out = stream.on_response(chunk("<think>a</think>b", true));
    let choices = collect_choices(&out);
    assert_eq!(choices.len(), 1);
    assert_eq!(
        *choices[0],
        choice(0, "<think>a</think>b", Some(FinishReason::Stop))
    );
    assert!(stream.on_end::<u64, String>().is_empty());
}

#[test]
fn the_outcome_of_setting_up_decides_the_first_chunk() {
    let mut stream = plain_stream();
    let refused = ChoiceState::new(
        "no_such_family",
        &Vec::new(),
        UnifiedParserPrefill::Unopened,
        UnifiedToolOutputMode::Native,
    );
    assert!(refused.is_err());
    let passed = stream.open_choice(refused, choice(3, "<think>a", None));
    assert_eq!(passed, vec![choice(3, "<think>a", None)]);

    let created = ChoiceState::new(
        QWEN3_UNIFIED_FAMILY,
        &Vec::new(),
        UnifiedParserPrefill::Unopened,
        UnifiedToolOutputMode::Native,
    );
    let parsed = stream.open_choice(created, choice(3, "<think>a</think>", None));
    assert_eq!(parsed.len(), 1);
    assert_eq!(parsed[0].delta.reasoning_content.as_deref(), Some("a"));
}

#[test]
fn a_terminated_choice_is_not_finished_again() {
    let mut stream = plain_stream();
    let first = stream.on_response(chunk("a", true));
    assert_eq!(collect_choices(&first).len(), 1);
    // Another terminating chunk is reported, but the parser is not finished twice.
    let second = stream.on_response(chunk("", true));
    let choices = collect_choices(&second);
    assert_eq!(choices.len(), 1);
    assert_eq!(choices[0].finish_reason, Some(FinishReason::Stop));
    assert!(stream.finish_unterminated_choices().is_empty());
}

#[test]
fn a_choice_terminated_upstream_gets_no_end_of_its_own() {
    let call = "<tool_call>\n<function=f>\n<parameter=a>1</parameter>\n</function>\n</tool_call>";
    let mut stream = plain_stream();
    stream.on_response(chunk(call, false));
    let mut parsed = chunk("", true);
    {
        let choice = &mut parsed.data.as_mut().unwrap().choices[0];
        choice.delta.content = None;
        choice.delta.reasoning_content = Some("done".to_string());
    }
    let out = stream.on_response(parsed);
    let choices = collect_choices(&out);
    assert_eq!(choices.len(), 1);
    assert_eq!(choices[0].finish_reason, Some(FinishReason::Stop));
    assert!(stream.on_end::<u64, String>().is_empty());
}

#[test]
fn a_thought_after_a_call_stays_after_it() {
    let output = "<think>Look it up.</think>\
        <tool_call>\n<function=get_weather>\n\
        <parameter=city>Tokyo</parameter>\n</function>\n</tool_call>\
        <think>Now answer.</think>It's 18C.";
    let responses = apply_stream(
        vec![chunk(output, true)],
        Some(weather_tools()),
        None,
        false,
        UnifiedParserPrefill::Unopened,
        QWEN3_UNIFIED_FAMILY,
    );
    let mut order: Vec<&str> = Vec::new();
    for choice in collect_choices(&responses) {
        let kind = if choice.delta.tool_calls.is_some() {
            "call"
        } else if choice.delta.reasoning_content.is_some() {
            "thought"
        } else {
            "text"
        };
        if order.last() != Some(&kind) {
            order.push(kind);
        }
    }
    assert_eq!(order, vec!["thought", "call", "thought", "text"]);
}

#[test]
fn a_parsed_choice_keeps_its_place_among_others() {
    let mut stream = plain_stream();
    let mut parsed = choice(1, "", Some(FinishReason::Stop));
    parsed.delta.content = None;
    parsed.delta.reasoning_content = Some("already".to_string());
    let expected = {
        let mut parsed = choice(1, "", Some(FinishReason::Stop));
        parsed.delta.content = None;
        parsed.delta.reasoning_content = Some("already".to_string());
        parsed
    };
    let out = stream.on_response(response(vec![
        choice(0, "<think>a</think>b", None),
        parsed,
        choice(2, "c", None),
    ]));
    let choices = collect_choices(&out);
    let indices: Vec<u32> = choices.iter().map(|choice| choice.index).collect();
    assert_eq!(indices, vec![0, 0, 1, 2]);
    assert_eq!(*choices[2], expected);
}

/// Holds whatever follows a `<` and refuses `boom`.
struct Brittle {
    held: String,
}

impl dynamo_parsers_v2::UnifiedParser for Brittle {
    fn parse_into(
        &mut self,
        delta: &str,
        output: &mut dynamo_parsers_v2::UnifiedParserOutput,
    ) -> anyhow::Result<()> {
        if delta == "boom" {
            return Err(anyhow::Error::msg("no boom"));
        }
        match delta.find('<') {
            Some(at) => {
                output.push_text(&delta[..at]);
                self.held.push_str(&delta[at..]);
            }
            None => output.push_text(delta),
        }
        Ok(())
    }

    fn finish(&mut self) -> anyhow::Result<dynamo_parsers_v2::UnifiedParserOutput> {
        Err(anyhow::Error::msg("no end"))
    }

    fn reset(&mut self) -> String {
        std::mem::take(&mut self.held)
    }
}

fn brittle(
    _tools: &[dynamo_parsers_v2::Tool],
) -> anyhow::Result<Box<dyn dynamo_parsers_v2::UnifiedParser>> {
    Ok(Box::new(Brittle {
        held: String::new(),
    }))
}

fn message(failure: &ParserFailure) -> String {
    match &failure.error {
        UnifiedParserError::Parser(cause) => cause.to_string(),
        other => panic!("unexpected {other:?}"),
    }
}

#[test]
fn failures_are_handed_out_once() {
    dynamo_parsers_v2::register_unified_parser("brittle_stream", brittle);
    let mut stream = stream_of(
        None,
        None,
        false,
        UnifiedParserPrefill::Unopened,
        "brittle_stream",
    );
    assert!(stream.take_failures().is_empty());
    stream.on_response(response(vec![
        choice(3, "fine", None),
        choice(1, "boom", None),
    ]));
    let failures = stream.take_failures();
    assert_eq!(failures.len(), 1);
    assert_eq!(failures[0].choice, 1);
    assert_eq!(message(&failures[0]), "no boom");
    assert!(stream.take_failures().is_empty());
    stream.on_end::<u64, String>();
    let failures = stream.take_failures();
    assert_eq!(failures.len(), 1);
    assert_eq!(failures[0].choice, 3);
    assert_eq!(message(&failures[0]), "no end");
}

#[test]
fn a_refused_set_up_is_handed_out_for_every_chunk() {
    let mut stream = stream_of(
        None,
        None,
        false,
        UnifiedParserPrefill::Unopened,
        "no_such_family",
    );
    stream.on_response(chunk("a", false));
    stream.on_response(chunk("b", true));
    let failures = stream.take_failures();
    assert_eq!(failures.len(), 2);
    assert!(failures.iter().all(|failure| failure.choice == 0));
    assert!(message(&failures[0]).contains("no_such_family"));
    assert!(stream.take_failures().is_empty());
}

#[test]
fn no_text_is_lost_around_a_parser_that_is_given_up() {
    let mut stream = stream_of(
        None,
        None,
        false,
        UnifiedParserPrefill::Unopened,
        "late_family",
    );
    let mut out: Vec<Response> = Vec::new();
    // There is no such parser yet: the text passes.
    out.append(&mut stream.on_response(chunk("early ", false)));
    dynamo_parsers_v2::register_unified_parser("late_family", brittle);
    out.append(&mut stream.on_response(chunk("said <held ", false)));
    out.append(&mut stream.on_response(chunk("boom", false)));
    out.append(&mut stream.on_response(chunk("<late>", true)));
    out.append(&mut stream.on_end());
    // What the parser held stands for the chunk that it refused.
    assert_eq!(
        content_of(&collect_choices(&out)),
        "early said <held <late>"
    );
    assert_eq!(stream.take_failures().len(), 2);
}

#[test]
fn a_response_built_for_a_choice_has_no_accounting() {
    let built: Response = response_with_choice(&"id".to_string(), choice(1, "x", None));
    let data = built.data.as_ref().unwrap();
    assert_eq!(data.envelope, "id");
    assert_eq!(data.choices, vec![choice(1, "x", None)]);
    assert_eq!(data.accounting, None);
    assert_eq!(built.annotation, None);
}
