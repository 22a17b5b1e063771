//! Whole outputs at once.

use dynamo_serving::unified::batch::{fold_events, parse_complete};
use dynamo_serving::unified::request::QWEN3_UNIFIED_FAMILY;
use dynamo_serving::unified::types::{FunctionType, UnifiedEvent};
use dynamo_serving::unified::UnifiedParserError;

#[test]
fn parses_complete_output_with_reasoning_and_a_tool_call() {
    let parsed = parse_complete(
        QWEN3_UNIFIED_FAMILY,
        "<think>reason</think>answer \
         <tool_call>\n<function=get_weather>\n\
         <parameter=city>Tokyo</parameter>\n</function>\n</tool_call>",
    )
    .unwrap();

    assert_eq!(parsed.reasoning, "reason");
    assert_eq!(parsed.text, "answer ");
    assert_eq!(parsed.tool_calls.len(), 1);
    assert_eq!(parsed.tool_calls[0].function.name, "get_weather");
    assert_eq!(
        parsed.tool_calls[0].function.arguments,
        r#"{"city":"Tokyo"}"#
    );
    assert!(parsed.tool_calls[0].id.starts_with("call-"));
}

#[test]
fn parses_complete_output_with_a_reasoning_prefill() {
    let parsed = parse_complete(QWEN3_UNIFIED_FAMILY, "hidden</think>visible").unwrap();
    assert_eq!(parsed.reasoning, "hidden");
    assert_eq!(parsed.text, "visible");
    assert!(parsed.tool_calls.is_empty());
}

#[test]
fn plain_text_passes_through_the_batch_path_unchanged() {
    let parsed = parse_complete(QWEN3_UNIFIED_FAMILY, "just an answer").unwrap();
    assert_eq!(parsed.text, "just an answer");
    assert!(parsed.reasoning.is_empty());
    assert!(parsed.tool_calls.is_empty());
}

#[test]
fn events_fold_channel_by_channel() {
    let arguments: serde_json::Value = serde_json::from_str(r#"{ "a" : [ 1, 2 ] }"#).unwrap();
    let output = fold_events(vec![
        UnifiedEvent::Reasoning {
            text: "one ".to_string(),
        },
        UnifiedEvent::Text {
            text: "x".to_string(),
        },
        UnifiedEvent::ToolCall {
            name: "f".to_string(),
            arguments,
        },
        UnifiedEvent::Reasoning {
            text: "two".to_string(),
        },
        UnifiedEvent::ToolCall {
            name: "g".to_string(),
            arguments: serde_json::Value::Null,
        },
        UnifiedEvent::Text {
            text: "y".to_string(),
        },
    ])
    .unwrap();
    assert_eq!(output.text, "xy");
    assert_eq!(output.reasoning, "one two");
    assert_eq!(output.tool_calls.len(), 2);
    assert_eq!(output.tool_calls[0].function.name, "f");
    // Written out anew: the formatting of the model is gone.
    assert_eq!(output.tool_calls[0].function.arguments, r#"{"a":[1,2]}"#);
    assert_eq!(output.tool_calls[0].kind, FunctionType::Function);
    assert_eq!(output.tool_calls[1].function.name, "g");
    assert_eq!(output.tool_calls[1].function.arguments, "null");
    assert_ne!(output.tool_calls[0].id, output.tool_calls[1].id);
}

#[test]
fn no_events_fold_to_an_empty_message() {
    let output = fold_events(Vec::new()).unwrap();
    assert_eq!(output.text, "");
    assert_eq!(output.reasoning, "");
    assert!(output.tool_calls.is_empty());
}

#[test]
fn an_unknown_family_is_the_parsers_refusal() {
    assert!(matches!(
        parse_complete("no_such_family", "text"),
        Err(UnifiedParserError::Parser(_))
    ));
}

#[test]
fn an_alias_has_a_parser_but_no_prefill_detector() {
    match parse_complete("qwen3_coder", "text") {
        Err(UnifiedParserError::NoPrefillDetector { family }) => assert_eq!(family, "qwen3_coder"),
        other => panic!("unexpected {other:?}"),
    }
}
