//! Calls into other crates that the parsing rules make.
//!
//! Nothing here decides anything: each function makes one call and converts its
//! arguments and its result. The contracts are taken on trust; each doc comment says
//! what is claimed of the function behind it.

use vstd::prelude::*;

use super::types::{
    DeltaView, EventView, ModeView, Tool, ToolCallDelta, ToolView, UnifiedDelta, UnifiedEvent,
    UnifiedParserPrefill, UnifiedToolOutputMode,
};

verus! {

/// The error with which the parser crate refuses.
#[verifier::external_type_specification]
#[verifier::external_body]
pub struct ExParserFailure(anyhow::Error);

/// The error with which JSON text is refused.
#[verifier::external_type_specification]
#[verifier::external_body]
pub struct ExJsonFailure(serde_json::Error);

/// A `dynamo_parsers_v2::UnifiedParser` for one choice of one request.
///
/// The parser is a trait object, so it is held behind this type. What is known of a
/// parser is its [`transcript`].
#[verifier::external_body]
pub struct ParserHandle {
    inner: Box<dyn dynamo_parsers_v2::UnifiedParser>,
}

/// What the parser answered to a piece of text or to the end of the stream.
pub enum ParserReply {
    Deltas(Seq<DeltaView>),
    Failed,
}

/// One call made on a parser, with what was handed over and what came back.
pub enum ParserExchange {
    Created { family: Seq<char>, tools: Seq<ToolView> },
    Initialized { prefill: UnifiedParserPrefill, mode: ModeView, accepted: bool },
    Pushed { chunk: Seq<char>, reply: ParserReply },
    Finished { reply: ParserReply },
    Reset { unconsumed: Seq<char> },
    ParsedComplete { content: Seq<char>, events: Option<Seq<EventView>> },
}

/// The calls made on this parser so far, in order.
pub uninterp spec fn transcript(parser: ParserHandle) -> Seq<ParserExchange>;

/// The calls made on a parser up to the one that it refused with this error. An error
/// belongs to one refusal and cannot be copied.
pub uninterp spec fn refusal(error: anyhow::Error) -> Seq<ParserExchange>;

/// What a reply of the parser says.
pub open spec fn reply_view(reply: Result<Vec<UnifiedDelta>, anyhow::Error>) -> ParserReply {
    match reply {
        Ok(deltas) => ParserReply::Deltas(deltas.deep_view()),
        Err(_) => ParserReply::Failed,
    }
}

/// Calls `dynamo_parsers_v2::create_unified_parser_for_family`. A parser that it
/// returns has seen this family name, these tools and nothing else, and so has one that
/// it refuses. Which families there are is left open: the crate lets a process register
/// its own.
#[verifier::external_body]
pub(crate) fn create_parser(family: &str, tools: &Vec<Tool>) -> (result: Result<
    ParserHandle,
    anyhow::Error,
>)
    ensures
        (match result {
            Ok(parser) => transcript(parser),
            Err(error) => refusal(error),
        }) == seq![ParserExchange::Created { family: family@, tools: tools.deep_view() }],
{
    let tools: Vec<dynamo_parsers_v2::Tool> = tools.iter().map(|tool| dynamo_parsers_v2::Tool {
        name: tool.name.clone(),
        description: tool.description.clone(),
        parameters: tool.parameters.clone(),
        strict: tool.strict,
    }).collect();
    let inner = dynamo_parsers_v2::create_unified_parser_for_family(family, &tools)?;
    Ok(ParserHandle { inner })
}

/// Calls `UnifiedParser::initialize_request` with this starting state and output mode,
/// everything else at the parser crate's defaults. Whether the parser accepts them is
/// its own decision; an error is the refusal of this call.
#[verifier::external_body]
pub(crate) fn initialize_parser(
    parser: &mut ParserHandle,
    prefill: UnifiedParserPrefill,
    mode: UnifiedToolOutputMode<'_>,
) -> (result: Result<(), anyhow::Error>)
    ensures
        transcript(*final(parser)) == transcript(*old(parser)).push(
            ParserExchange::Initialized { prefill, mode: mode.deep_view(), accepted: result is Ok },
        ),
        result matches Err(error) ==> refusal(error) == transcript(*final(parser)),
{
    parser.inner.initialize_request(dynamo_parsers_v2::UnifiedParserInit {
        starting_state: match prefill {
            UnifiedParserPrefill::Unopened => dynamo_parsers_v2::UnifiedParserStartingState::None,
            UnifiedParserPrefill::Reasoning => dynamo_parsers_v2::UnifiedParserStartingState::Reasoning,
            UnifiedParserPrefill::Response => dynamo_parsers_v2::UnifiedParserStartingState::Response,
        },
        tool_output_mode: match mode {
            UnifiedToolOutputMode::Native => dynamo_parsers_v2::UnifiedToolOutputMode::Native,
            UnifiedToolOutputMode::GuidedJson { named_tool } =>
                dynamo_parsers_v2::UnifiedToolOutputMode::GuidedJson { named_tool: named_tool.map(String::from) },
        },
        ..Default::default()
    })
}

/// Calls `UnifiedParserExt::push` with `chunk`. The reply is recorded as it came; what
/// the grammar makes of a chunk is left to the parser. An error is the refusal of this
/// call.
#[verifier::external_body]
pub(crate) fn push_parser(parser: &mut ParserHandle, chunk: &str) -> (result: Result<
    Vec<UnifiedDelta>,
    anyhow::Error,
>)
    ensures
        transcript(*final(parser)) == transcript(*old(parser)).push(
            ParserExchange::Pushed { chunk: chunk@, reply: reply_view(result) },
        ),
        result matches Err(error) ==> refusal(error) == transcript(*final(parser)),
{
    let events = dynamo_parsers_v2::UnifiedParserExt::push(&mut *parser.inner, chunk)?;
    Ok(events.into_iter().map(|event| match event {
        dynamo_parsers_v2::UnifiedParserEvent::Text(text) => UnifiedDelta::Text { text },
        dynamo_parsers_v2::UnifiedParserEvent::Reasoning(text) => UnifiedDelta::Reasoning { text },
        dynamo_parsers_v2::UnifiedParserEvent::ToolCall(call) => UnifiedDelta::ToolCall(
            ToolCallDelta { tool_index: call.tool_index, name: call.name, arguments: call.arguments },
        ),
    }).collect())
}

/// Calls `UnifiedParser::finish`. The reply is recorded as it came. An error is the
/// refusal of this call.
#[verifier::external_body]
pub(crate) fn finish_parser(parser: &mut ParserHandle) -> (result: Result<
    Vec<UnifiedDelta>,
    anyhow::Error,
>)
    ensures
        transcript(*final(parser)) == transcript(*old(parser)).push(
            ParserExchange::Finished { reply: reply_view(result) },
        ),
        result matches Err(error) ==> refusal(error) == transcript(*final(parser)),
{
    let output = parser.inner.finish()?;
    Ok(output.events.into_iter().map(|event| match event {
        dynamo_parsers_v2::UnifiedParserEvent::Text(text) => UnifiedDelta::Text { text },
        dynamo_parsers_v2::UnifiedParserEvent::Reasoning(text) => UnifiedDelta::Reasoning { text },
        dynamo_parsers_v2::UnifiedParserEvent::ToolCall(call) => UnifiedDelta::ToolCall(
            ToolCallDelta { tool_index: call.tool_index, name: call.name, arguments: call.arguments },
        ),
    }).collect())
}

/// Calls `UnifiedParser::reset`, which hands back the text that the parser had taken in
/// and not given out. That text is recorded as it came.
#[verifier::external_body]
pub(crate) fn reset_parser(parser: &mut ParserHandle) -> (unconsumed: String)
    ensures
        transcript(*final(parser)) == transcript(*old(parser)).push(
            ParserExchange::Reset { unconsumed: unconsumed@ },
        ),
{
    parser.inner.reset()
}

/// Calls `UnifiedParserExt::parse_complete` with `content`. The events are recorded as
/// they came. An error is the refusal of this call.
#[verifier::external_body]
pub(crate) fn parse_complete_parser(parser: &mut ParserHandle, content: &str) -> (result: Result<
    Vec<UnifiedEvent>,
    anyhow::Error,
>)
    ensures
        transcript(*final(parser)) == transcript(*old(parser)).push(
            ParserExchange::ParsedComplete {
                content: content@,
                events: match result {
                    Ok(events) => Some(events.deep_view()),
                    Err(_) => None,
                },
            },
        ),
        result matches Err(error) ==> refusal(error) == transcript(*final(parser)),
{
    let events = dynamo_parsers_v2::UnifiedParserExt::parse_complete(&mut *parser.inner, content)?;
    Ok(events.into_iter().map(|event| match event {
        dynamo_parsers_v2::UnifiedEvent::Text { text } => UnifiedEvent::Text { text },
        dynamo_parsers_v2::UnifiedEvent::Reasoning { text } => UnifiedEvent::Reasoning { text },
        dynamo_parsers_v2::UnifiedEvent::ToolCall { name, arguments } =>
            UnifiedEvent::ToolCall { name, arguments },
    }).collect())
}

/// The compact JSON text of a value, as `serde_json::to_string` writes it, or none where
/// it refuses the value.
pub uninterp spec fn json_text(value: serde_json::Value) -> Option<Seq<char>>;

/// Calls `serde_json::to_string`. Whether it succeeds, and the text it writes, depend on
/// the value alone.
#[verifier::external_body]
pub(crate) fn json_to_string(value: &serde_json::Value) -> (result: Result<
    String,
    serde_json::Error,
>)
    ensures
        json_text(*value) == (match result {
            Ok(text) => Some(text@),
            Err(_) => None,
        }),
{
    serde_json::to_string(value)
}

/// Calls `serde_json::Value::default`, which gives JSON `null`: the value that is written
/// as `null`.
#[verifier::external_body]
pub(crate) fn json_null() -> (value: serde_json::Value)
    ensures
        json_text(value) == Some("null"@),
{
    serde_json::Value::default()
}

/// A copy of a JSON value is that value.
pub assume_specification[ <serde_json::Value as Clone>::clone ](
    value: &serde_json::Value,
) -> (copy: serde_json::Value)
    ensures
        copy == *value,
;

/// One of the sixteen lower-case hexadecimal digits.
pub open spec fn is_lower_hex(c: char) -> bool {
    ('0' <= c && c <= '9') || ('a' <= c && c <= 'f')
}

/// A random (version 4, variant RFC 4122) UUID in its hyphenated form.
pub open spec fn is_uuid_text(text: Seq<char>) -> bool {
    &&& text.len() == 36
    &&& forall|i: int|
        0 <= i < 36 ==> if i == 8 || i == 13 || i == 18 || i == 23 {
            #[trigger] text[i] == '-'
        } else {
            is_lower_hex(text[i])
        }
    &&& text[14] == '4'
    &&& text[19] == '8' || text[19] == '9' || text[19] == 'a' || text[19] == 'b'
}

/// Calls `uuid::Uuid::new_v4` and writes the UUID out in its hyphenated, lower-case form.
/// Nothing ties one call to another: that two UUIDs differ is a matter of chance.
#[verifier::external_body]
pub(crate) fn random_uuid_text() -> (text: String)
    ensures
        is_uuid_text(text@),
{
    uuid::Uuid::new_v4().to_string()
}

/// `needle` stands somewhere in `text`.
pub open spec fn occurs_in(needle: Seq<char>, text: Seq<char>) -> bool {
    exists|i: int|
        0 <= i <= text.len() - needle.len() && #[trigger] text.subrange(i, i + needle.len())
            == needle
}

/// Calls `str::contains`, which tells whether the needle stands somewhere in the text.
#[verifier::external_body]
pub(crate) fn text_contains(text: &str, needle: &str) -> (found: bool)
    ensures
        found == occurs_in(needle@, text@),
{
    text.contains(needle)
}

} // verus!
