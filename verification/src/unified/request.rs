//! What a request's settings mean for its parser.

use vstd::prelude::*;

use super::outside::{json_null, json_text, occurs_in, text_contains};
use super::types::{
    ChatChoiceStream, ChatCompletionMessageContent, ChoiceView, ContentView, ModeView, Tool,
    ToolChoice, ToolDefinition, ToolView, UnifiedParserPrefill, UnifiedToolOutputMode,
};
use super::UnifiedParserError;

verus! {

/// The unified parser family that serves Qwen3.
pub const QWEN3_UNIFIED_FAMILY: &'static str = "qwen3";

/// The tool-call parser name that pairs into [`QWEN3_UNIFIED_FAMILY`].
pub const QWEN3_TOOL_CALL_PARSER: &'static str = "qwen3_coder";

/// The reasoning parser name that pairs into [`QWEN3_UNIFIED_FAMILY`].
pub const QWEN3_REASONING_PARSER: &'static str = "qwen3";

/// Whether two texts are the same.
fn same_text(left: &str, right: &str) -> (same: bool)
    ensures
        same == (left@ == right@),
{
    left.to_owned() == right.to_owned()
}

/// Both halves of the Qwen3 pair are configured.
pub open spec fn is_qwen3_pair(
    tool_call_parser: Option<&str>,
    reasoning_parser: Option<&str>,
) -> bool {
    match (tool_call_parser, reasoning_parser) {
        (Some(tool), Some(reasoning)) => tool@ == "qwen3_coder"@ && reasoning@ == "qwen3"@,
        _ => false,
    }
}

/// The unified family that this parser pair names, whether or not it is switched on.
///
/// Both halves must be set and must agree: a unified parser owns reasoning and tool
/// calls, so taking over a request configured with only one of them, or with a reasoning
/// parser of another family, would silently change what the operator asked for.
pub fn configured_family(
    tool_call_parser: Option<&str>,
    reasoning_parser: Option<&str>,
) -> (family: Option<&'static str>)
    ensures
        family is Some <==> is_qwen3_pair(tool_call_parser, reasoning_parser),
        family is Some <==> (tool_call_parser matches Some(tool) && reasoning_parser matches Some(
            reasoning,
        ) && tool@ == "qwen3_coder"@ && reasoning@ == "qwen3"@),
        family matches Some(name) ==> name@ == "qwen3"@,
{
    match (tool_call_parser, reasoning_parser) {
        (Some(tool), Some(reasoning)) => if same_text(tool, QWEN3_TOOL_CALL_PARSER) && same_text(
            reasoning,
            QWEN3_REASONING_PARSER,
        ) {
            Some(QWEN3_UNIFIED_FAMILY)
        } else {
            None
        },
        _ => None,
    }
}

/// The unified family to use for this parser pair, or none to keep separate parsers for
/// reasoning and tool calls. `experimental_parsers_enabled` is the process-wide switch.
pub fn selected_family(
    tool_call_parser: Option<&str>,
    reasoning_parser: Option<&str>,
    experimental_parsers_enabled: bool,
) -> (family: Option<&'static str>)
    ensures
        family is Some <==> (is_qwen3_pair(tool_call_parser, reasoning_parser)
            && experimental_parsers_enabled),
        family is Some <==> (experimental_parsers_enabled && (tool_call_parser matches Some(tool)
            && reasoning_parser matches Some(reasoning) && tool@ == "qwen3_coder"@ && reasoning@
            == "qwen3"@)),
        family matches Some(name) ==> name@ == "qwen3"@,
{
    match configured_family(tool_call_parser, reasoning_parser) {
        // A family without a switch of its own stays off.
        Some(family) => if same_text(family, QWEN3_UNIFIED_FAMILY) && experimental_parsers_enabled {
            Some(family)
        } else {
            None
        },
        None => None,
    }
}

/// Which channel the rendered generation prompt has already opened, for a stream.
///
/// When the prompt ended with the family's reasoning opener, the output starts inside a
/// thought. Otherwise every family known here opens its channels itself, and an unknown
/// one is taken to do so too.
pub fn stream_prefill(_family: &str, prompt_injected_reasoning: bool) -> (prefill:
    UnifiedParserPrefill)
    ensures
        prefill == if prompt_injected_reasoning {
            UnifiedParserPrefill::Reasoning
        } else {
            UnifiedParserPrefill::Unopened
        },
{
    if prompt_injected_reasoning {
        UnifiedParserPrefill::Reasoning
    } else {
        UnifiedParserPrefill::Unopened
    }
}

/// The channel that the prompt had opened, told from the whole output.
pub open spec fn prefill_of(content: Seq<char>) -> UnifiedParserPrefill {
    if occurs_in("<think>"@, content) {
        UnifiedParserPrefill::Unopened
    } else if occurs_in("</think>"@, content) {
        UnifiedParserPrefill::Reasoning
    } else {
        UnifiedParserPrefill::Response
    }
}

/// Which channel the prompt opened, told from complete output text.
///
/// Only what the model produced is at hand: a `<think>` means that the model opened
/// reasoning itself, a `</think>` alone that the prompt had opened it, and neither that
/// there was no reasoning in this turn.
pub fn detect_prefill(family: &str, content: &str) -> (result: Result<
    UnifiedParserPrefill,
    UnifiedParserError,
>)
    ensures
        match result {
            Ok(prefill) => family@ == "qwen3"@ && prefill == prefill_of(content@),
            Err(UnifiedParserError::NoPrefillDetector { family: name }) => family@ != "qwen3"@
                && name@ == family@,
            Err(_) => false,
        },
{
    if same_text(family, QWEN3_UNIFIED_FAMILY) {
        Ok(
            if text_contains(content, "<think>") {
                UnifiedParserPrefill::Unopened
            } else if text_contains(content, "</think>") {
                UnifiedParserPrefill::Reasoning
            } else {
                UnifiedParserPrefill::Response
            },
        )
    } else {
        Err(UnifiedParserError::NoPrefillDetector { family: family.to_owned() })
    }
}

/// `tool` is the parser's form of `definition`. A tool that is defined without parameters
/// has JSON `null` for its schema.
pub open spec fn is_tool_of(tool: ToolView, definition: ToolDefinition) -> bool {
    &&& tool.name == definition.name@
    &&& tool.description is None
    &&& tool.strict == definition.strict
    &&& match definition.parameters {
        Some(schema) => tool.parameters == schema,
        None => json_text(tool.parameters) == Some("null"@),
    }
}

/// The tools that a request defines.
pub open spec fn definitions(tools: Option<&[ToolDefinition]>) -> Seq<ToolDefinition> {
    match tools {
        Some(tools) => tools@,
        None => seq![],
    }
}

/// Writes the request's tool definitions in the parser's form, in their order.
pub fn to_v2_tools(tools: Option<&[ToolDefinition]>) -> (converted: Vec<Tool>)
    ensures
        converted@.len() == definitions(tools).len(),
        forall|j: int|
            0 <= j < converted@.len() ==> is_tool_of(
                (#[trigger] converted@[j]).deep_view(),
                definitions(tools)[j],
            ),
{
    let mut converted: Vec<Tool> = Vec::new();
    if let Some(tools) = tools {
        let mut i: usize = 0;
        while i < tools.len()
            invariant
                i <= tools.len(),
                converted@.len() == i,
                forall|j: int|
                    0 <= j < i ==> is_tool_of((#[trigger] converted@[j]).deep_view(), tools@[j]),
            decreases tools.len() - i,
        {
            let tool = &tools[i];
            converted.push(
                Tool {
                    name: tool.name.clone(),
                    description: None,
                    parameters: match &tool.parameters {
                        Some(schema) => schema.clone(),
                        None => json_null(),
                    },
                    strict: tool.strict,
                },
            );
            i = i + 1;
        }
    }
    converted
}

/// The form in which tool calls come for a `tool_choice`.
pub open spec fn mode_of(tool_choice: Option<ToolChoice>) -> ModeView {
    match tool_choice {
        Some(ToolChoice::Named { name }) => ModeView::GuidedJson { named_tool: Some(name@) },
        Some(ToolChoice::Required) => ModeView::GuidedJson { named_tool: None },
        _ => ModeView::Native,
    }
}

/// The wire format that the backend produces for the request's `tool_choice`.
///
/// A named or required choice is served by guided decoding: bare JSON, one tool's
/// argument object or call objects, instead of the model's own markup. Everything else
/// leaves the model in its markup.
///
/// Not to be consulted when a structural tag is active: see [`output_mode`].
pub fn tool_output_mode(tool_choice: Option<&ToolChoice>) -> (mode: UnifiedToolOutputMode<'_>)
    ensures
        mode.deep_view() == mode_of(
            match tool_choice {
                Some(choice) => Some(*choice),
                None => None,
            },
        ),
{
    match tool_choice {
        Some(ToolChoice::Named { name }) => UnifiedToolOutputMode::GuidedJson {
            named_tool: Some(name.as_str()),
        },
        Some(ToolChoice::Required) => UnifiedToolOutputMode::GuidedJson { named_tool: None },
        Some(ToolChoice::Auto) => UnifiedToolOutputMode::Native,
        Some(ToolChoice::Disabled) => UnifiedToolOutputMode::Native,
        None => UnifiedToolOutputMode::Native,
    }
}

/// The form in which tool calls come. A structural tag pins generation to the model's
/// markup; only without one does `tool_choice` decide.
pub open spec fn stream_mode(
    tool_choice: Option<ToolChoice>,
    uses_tool_call_structural_tag: bool,
) -> ModeView {
    if uses_tool_call_structural_tag {
        ModeView::Native
    } else {
        mode_of(tool_choice)
    }
}

/// The wire format that the backend produces for a stream.
pub fn output_mode(tool_choice: Option<&ToolChoice>, uses_tool_call_structural_tag: bool) -> (mode:
    UnifiedToolOutputMode<'_>)
    ensures
        mode.deep_view() == stream_mode(
            match tool_choice {
                Some(choice) => Some(*choice),
                None => None,
            },
            uses_tool_call_structural_tag,
        ),
{
    if uses_tool_call_structural_tag {
        UnifiedToolOutputMode::Native
    } else {
        tool_output_mode(tool_choice)
    }
}

/// A choice that something upstream has parsed already.
pub open spec fn is_already_parsed(choice: ChoiceView) -> bool {
    ||| choice.content matches Some(ContentView::Parts(_))
    ||| choice.tool_calls is Some
    ||| choice.reasoning_content is Some
}

/// Whether a choice arrived parsed already and must be passed on untouched rather than be
/// parsed again.
pub fn already_parsed(choice: &ChatChoiceStream) -> (parsed: bool)
    ensures
        parsed == is_already_parsed(choice.deep_view()),
        parsed <==> (choice.delta.content matches Some(ChatCompletionMessageContent::Parts(_)))
            || choice.delta.tool_calls is Some || choice.delta.reasoning_content is Some,
{
    let in_parts: bool = match &choice.delta.content {
        Some(ChatCompletionMessageContent::Parts(_)) => true,
        _ => false,
    };
    in_parts || choice.delta.tool_calls.is_some() || choice.delta.reasoning_content.is_some()
}

// --- laws ------------------------------------------------------------------------

/// One pair of parser names opts in, and only that one: both halves have to be there, and
/// any two pairs that opt in hold the same two names.
pub proof fn law_one_pair_of_parsers_opts_in(
    tool_call_parser: Option<&str>,
    reasoning_parser: Option<&str>,
    other_tool: Option<&str>,
    other_reasoning: Option<&str>,
)
    ensures
        is_qwen3_pair(tool_call_parser, reasoning_parser) <==> tool_call_parser is Some
            && reasoning_parser is Some && (tool_call_parser->0)@ == "qwen3_coder"@ && (
        reasoning_parser->0)@ == "qwen3"@,
        is_qwen3_pair(tool_call_parser, reasoning_parser) && is_qwen3_pair(
            other_tool,
            other_reasoning,
        ) ==> (tool_call_parser->0)@ == (other_tool->0)@ && (reasoning_parser->0)@ == (
        other_reasoning->0)@,
{
}

/// `text` has `marker` in it, with something before and something after.
pub open spec fn is_around(
    text: Seq<char>,
    before: Seq<char>,
    marker: Seq<char>,
    after: Seq<char>,
) -> bool {
    text == before + marker + after
}

/// `text` has `marker` in it.
pub open spec fn holds_marker(text: Seq<char>, marker: Seq<char>) -> bool {
    exists|before: Seq<char>, after: Seq<char>| #[trigger] is_around(text, before, marker, after)
}

proof fn lemma_occurs(marker: Seq<char>, text: Seq<char>)
    ensures
        occurs_in(marker, text) <==> holds_marker(text, marker),
{
    if occurs_in(marker, text) {
        let i = choose|i: int|
            0 <= i <= text.len() - marker.len() && #[trigger] text.subrange(i, i + marker.len())
                == marker;
        let before = text.take(i);
        let after = text.skip(i + marker.len());
        assert(text =~= before + text.subrange(i, i + marker.len()) + after);
        assert(is_around(text, before, marker, after));
    }
    if holds_marker(text, marker) {
        let (before, after) = choose|before: Seq<char>, after: Seq<char>| #[trigger]
            is_around(text, before, marker, after);
        let i = before.len() as int;
        assert(text.subrange(i, i + marker.len()) =~= marker);
    }
}

/// An opener anywhere in the output means that the model opened reasoning itself; a closer
/// without an opener that the prompt had; and neither that there was no reasoning.
pub proof fn law_the_prefill_is_told_by_the_markers(content: Seq<char>)
    ensures
        prefill_of(content) is Unopened <==> holds_marker(content, "<think>"@),
        prefill_of(content) is Reasoning <==> !holds_marker(content, "<think>"@) && holds_marker(
            content,
            "</think>"@,
        ),
        prefill_of(content) is Response <==> !holds_marker(content, "<think>"@) && !holds_marker(
            content,
            "</think>"@,
        ),
{
    lemma_occurs("<think>"@, content);
    lemma_occurs("</think>"@, content);
}

/// A tool reaches the parser with its name, its schema and its strictness as they were
/// defined, and with nothing made up: a missing schema is JSON `null`.
pub proof fn law_a_tool_is_what_was_defined(tool: ToolView, definition: ToolDefinition)
    requires
        is_tool_of(tool, definition),
    ensures
        tool.name == definition.name@,
        tool.description is None,
        tool.strict == definition.strict,
        definition.parameters is Some ==> tool.parameters == definition.parameters->0,
        definition.parameters is None ==> json_text(tool.parameters) == Some("null"@),
{
}

/// The tools of a request are those of its list, and none without a list.
pub proof fn law_a_request_defines_its_list(tools: Option<&[ToolDefinition]>)
    ensures
        tools is None ==> definitions(tools).len() == 0,
        tools matches Some(list) ==> definitions(tools) == list@,
{
}

/// Guided JSON comes for a choice that must be a call, and only then; it is bound to a
/// tool when the choice names one, and to that tool.
pub proof fn law_only_a_forced_call_is_guided(tool_choice: Option<ToolChoice>)
    ensures
        mode_of(tool_choice) is GuidedJson <==> tool_choice is Some && (tool_choice->0 is Required
            || tool_choice->0 is Named),
        mode_of(tool_choice) is Native <==> !(mode_of(tool_choice) is GuidedJson),
        tool_choice is Some && tool_choice->0 is Required ==> mode_of(tool_choice)->named_tool
            is None,
        tool_choice is Some && tool_choice->0 is Named ==> mode_of(tool_choice)->named_tool == Some(
            tool_choice->0->name@,
        ),
{
}

/// A structural tag outweighs any choice; without one the choice decides.
pub proof fn law_a_structural_tag_keeps_to_the_markup(tool_choice: Option<ToolChoice>)
    ensures
        stream_mode(tool_choice, true) is Native,
        stream_mode(tool_choice, false) == mode_of(tool_choice),
{
}

/// A choice counts as parsed by what its delta holds and by nothing else: content in
/// parts, tool calls or reasoning. Text, a role, a refusal, log probabilities or a
/// terminating reason do not make it so.
pub proof fn law_a_parsed_choice_holds_parts_calls_or_reasoning(choice: ChoiceView)
    ensures
        is_already_parsed(choice) <==> (choice.content is Some && choice.content->0 is Parts)
            || choice.tool_calls is Some || choice.reasoning_content is Some,
{
}

/// Two choices with the same content, calls and reasoning are both parsed or neither is.
pub proof fn law_nothing_else_makes_a_choice_parsed(left: ChoiceView, right: ChoiceView)
    requires
        left.content == right.content,
        left.tool_calls == right.tool_calls,
        left.reasoning_content == right.reasoning_content,
    ensures
        is_already_parsed(left) == is_already_parsed(right),
{
}

} // verus!
