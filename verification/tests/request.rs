//! What a request's settings mean for its parser.

use dynamo_serving::unified::choice::empty_choice;
use dynamo_serving::unified::request::{
    already_parsed, configured_family, detect_prefill, output_mode, selected_family,
    stream_prefill, to_v2_tools, tool_output_mode, QWEN3_UNIFIED_FAMILY,
};
use dynamo_serving::unified::types::{
    ChatCompletionMessageContent, ToolChoice, ToolDefinition, UnifiedParserPrefill,
    UnifiedToolOutputMode,
};
use dynamo_serving::unified::UnifiedParserError;

#[test]
fn pairs_only_qwen3_coder_with_qwen3() {
    assert_eq!(
        configured_family(Some("qwen3_coder"), Some("qwen3")),
        Some(QWEN3_UNIFIED_FAMILY)
    );
    // A unified parser owns both halves, so half a pair must not opt in.
    assert_eq!(configured_family(Some("qwen3_coder"), None), None);
    assert_eq!(configured_family(None, Some("qwen3")), None);
    assert_eq!(configured_family(None, None), None);
    // Right tool parser, wrong reasoning family.
    assert_eq!(
        configured_family(Some("qwen3_coder"), Some("deepseek_r1")),
        None
    );
    // Right reasoning parser, wrong tool family.
    assert_eq!(configured_family(Some("kimi_k2"), Some("qwen3")), None);
    // The pairing is on the parser names, not on the unified family's name.
    assert_eq!(configured_family(Some("qwen3"), Some("qwen3")), None);
}

#[test]
fn selected_family_needs_the_env_flag() {
    let pair = (Some("qwen3_coder"), Some("qwen3"));
    assert_eq!(
        configured_family(pair.0, pair.1),
        Some(QWEN3_UNIFIED_FAMILY)
    );
    assert_eq!(
        selected_family(pair.0, pair.1, true),
        Some(QWEN3_UNIFIED_FAMILY),
        "flag on: the configured pair must be selected"
    );
    assert_eq!(
        selected_family(pair.0, pair.1, false),
        None,
        "flag off: the configured pair must NOT be selected"
    );
    // Never selected, whatever the flag says.
    for flag in [false, true] {
        assert_eq!(selected_family(Some("qwen3_coder"), None, flag), None);
        assert_eq!(selected_family(None, Some("qwen3"), flag), None);
    }
}

#[test]
fn maps_tool_choice_onto_the_output_mode() {
    let named = ToolChoice::Named {
        name: "get_weather".to_string(),
    };
    assert_eq!(
        tool_output_mode(Some(&named)),
        UnifiedToolOutputMode::GuidedJson {
            named_tool: Some("get_weather")
        }
    );
    assert_eq!(
        tool_output_mode(Some(&ToolChoice::Required)),
        UnifiedToolOutputMode::GuidedJson { named_tool: None }
    );
    for native in [
        None,
        Some(&ToolChoice::Auto),
        Some(&ToolChoice::Disabled),
    ] {
        assert_eq!(
            tool_output_mode(native),
            UnifiedToolOutputMode::Native,
            "{native:?} must stay on native markup"
        );
    }
}

#[test]
fn a_structural_tag_overrides_every_tool_choice() {
    let named = ToolChoice::Named {
        name: "get_weather".to_string(),
    };
    for choice in [
        None,
        Some(&ToolChoice::Auto),
        Some(&ToolChoice::Disabled),
        Some(&ToolChoice::Required),
        Some(&named),
    ] {
        assert_eq!(output_mode(choice, true), UnifiedToolOutputMode::Native);
        assert_eq!(output_mode(choice, false), tool_output_mode(choice));
    }
}

#[test]
fn prompt_injected_reasoning_selects_the_reasoning_prefill() {
    assert_eq!(
        stream_prefill(QWEN3_UNIFIED_FAMILY, true),
        UnifiedParserPrefill::Reasoning
    );
    // The template pre-opens no channel, so the model emits `<think>` itself.
    assert_eq!(
        stream_prefill(QWEN3_UNIFIED_FAMILY, false),
        UnifiedParserPrefill::Unopened
    );
}

#[test]
fn an_unknown_family_is_taken_to_open_its_own_channels() {
    assert_eq!(
        stream_prefill("kimi_k3", false),
        UnifiedParserPrefill::Unopened
    );
    assert_eq!(
        stream_prefill("kimi_k3", true),
        UnifiedParserPrefill::Reasoning
    );
}

#[test]
fn detects_batch_prefill_from_complete_output() {
    assert_eq!(
        detect_prefill(QWEN3_UNIFIED_FAMILY, "<think>reason</think>answer").unwrap(),
        UnifiedParserPrefill::Unopened
    );
    assert_eq!(
        detect_prefill(QWEN3_UNIFIED_FAMILY, "reason</think>answer").unwrap(),
        UnifiedParserPrefill::Reasoning
    );
    assert_eq!(
        detect_prefill(QWEN3_UNIFIED_FAMILY, "answer").unwrap(),
        UnifiedParserPrefill::Response
    );
    assert!(detect_prefill("kimi_k3", "answer").is_err());
}

#[test]
fn a_family_without_a_detector_is_named_in_the_error() {
    match detect_prefill("kimi_k3", "<think>") {
        Err(UnifiedParserError::NoPrefillDetector { family }) => assert_eq!(family, "kimi_k3"),
        other => panic!("unexpected {other:?}"),
    }
}

#[test]
fn an_opener_outweighs_a_closer_wherever_it_stands() {
    assert_eq!(
        detect_prefill("qwen3", "a</think>b<think>").unwrap(),
        UnifiedParserPrefill::Unopened
    );
    assert_eq!(
        detect_prefill("qwen3", "").unwrap(),
        UnifiedParserPrefill::Response
    );
    assert_eq!(
        detect_prefill("qwen3", "<thin k></thin k>").unwrap(),
        UnifiedParserPrefill::Response
    );
}

#[test]
fn tools_keep_their_order_and_get_a_null_schema_when_they_have_none() {
    let schema: serde_json::Value = serde_json::from_str(r#"{"type":"object"}"#).unwrap();
    let definitions = vec![
        ToolDefinition {
            name: "b".to_string(),
            parameters: Some(schema.clone()),
            strict: Some(true),
        },
        ToolDefinition {
            name: "a".to_string(),
            parameters: None,
            strict: None,
        },
    ];
    let tools = to_v2_tools(Some(&definitions));
    assert_eq!(tools.len(), 2);
    assert_eq!(tools[0].name, "b");
    assert_eq!(tools[0].parameters, schema);
    assert_eq!(tools[0].strict, Some(true));
    assert_eq!(tools[0].description, None);
    assert_eq!(tools[1].name, "a");
    assert_eq!(tools[1].parameters, serde_json::Value::Null);
    assert_eq!(tools[1].strict, None);
    assert!(to_v2_tools(None).is_empty());
}

#[test]
fn text_alone_is_not_parsed_yet() {
    let mut choice = empty_choice(0);
    assert!(!already_parsed(&choice));
    choice.delta.content = Some(ChatCompletionMessageContent::Text("text".to_string()));
    assert!(!already_parsed(&choice));
    choice.delta.content = Some(ChatCompletionMessageContent::Parts(Vec::new()));
    assert!(already_parsed(&choice));
    choice.delta.content = None;
    choice.delta.tool_calls = Some(Vec::new());
    assert!(already_parsed(&choice));
    choice.delta.tool_calls = None;
    choice.delta.reasoning_content = Some(String::new());
    assert!(already_parsed(&choice));
}
