//! What a parsed turn and a streamed chat chunk are made of.
//!
//! The wire types mirror the chat-completion streaming schema. Parts of it that no rule
//! here looks into (content parts, log probabilities, the legacy function call) are
//! carried through as opaque values.

use vstd::prelude::*;

verus! {

/// A part of multimodal message content: carried through, never looked into.
#[verifier::external_type_specification]
#[verifier::external_body]
pub struct ExContentPart(dynamo_protocols::types::ChatCompletionResponseContentPart);

/// Per-token log probabilities: carried through, never looked into.
#[verifier::external_type_specification]
#[verifier::external_body]
pub struct ExLogprobs(dynamo_protocols::types::ChatChoiceLogprobs);

/// The legacy function-call delta: carried through, never looked into.
#[verifier::external_type_specification]
#[verifier::external_body]
pub struct ExDeltaFunctionCall(
    dynamo_protocols::types::ChatCompletionStreamResponseDeltaFunctionCall,
);

/// A JSON value: carried through, and turned into text by `json_text`.
#[verifier::external_type_specification]
#[verifier::external_body]
pub struct ExJsonValue(serde_json::Value);

// --- parser vocabulary -----------------------------------------------------------

/// One fragment of a tool call.
#[derive(Debug, PartialEq, Eq)]
pub struct ToolCallDelta {
    /// Which call of the turn this fragment belongs to.
    pub tool_index: usize,
    /// The function's name, on the first fragment of a call.
    pub name: Option<String>,
    /// The argument text that this fragment adds.
    pub arguments: String,
}

/// One ordered piece of a parsed turn.
#[derive(Debug, PartialEq, Eq)]
pub enum UnifiedDelta {
    /// Text for the reader.
    Text { text: String },
    /// A piece of the model's reasoning.
    Reasoning { text: String },
    /// A fragment of a tool call.
    ToolCall(ToolCallDelta),
}

/// What a [`ToolCallDelta`] says.
pub struct CallView {
    pub tool_index: usize,
    pub name: Option<Seq<char>>,
    pub arguments: Seq<char>,
}

/// What a [`UnifiedDelta`] says.
pub enum DeltaView {
    Text(Seq<char>),
    Reasoning(Seq<char>),
    ToolCall(CallView),
}

impl DeepView for ToolCallDelta {
    type V = CallView;

    open spec fn deep_view(&self) -> CallView {
        CallView {
            tool_index: self.tool_index,
            name: self.name.deep_view(),
            arguments: self.arguments@,
        }
    }
}

impl DeepView for UnifiedDelta {
    type V = DeltaView;

    open spec fn deep_view(&self) -> DeltaView {
        match self {
            UnifiedDelta::Text { text } => DeltaView::Text(text@),
            UnifiedDelta::Reasoning { text } => DeltaView::Reasoning(text@),
            UnifiedDelta::ToolCall(call) => DeltaView::ToolCall(call.deep_view()),
        }
    }
}

/// One event of a completely parsed turn.
#[derive(Debug, PartialEq)]
pub enum UnifiedEvent {
    /// Text for the reader.
    Text { text: String },
    /// One span of reasoning.
    Reasoning { text: String },
    /// One whole tool call.
    ToolCall { name: String, arguments: serde_json::Value },
}

/// What a [`UnifiedEvent`] says.
pub enum EventView {
    Text(Seq<char>),
    Reasoning(Seq<char>),
    ToolCall { name: Seq<char>, arguments: serde_json::Value },
}

impl DeepView for UnifiedEvent {
    type V = EventView;

    open spec fn deep_view(&self) -> EventView {
        match self {
            UnifiedEvent::Text { text } => EventView::Text(text@),
            UnifiedEvent::Reasoning { text } => EventView::Reasoning(text@),
            UnifiedEvent::ToolCall { name, arguments } => EventView::ToolCall {
                name: name@,
                arguments: *arguments,
            },
        }
    }
}

/// Which channel the generation prompt had already opened.
#[derive(Clone, Copy, Debug, PartialEq, Eq, Structural)]
pub enum UnifiedParserPrefill {
    /// No channel: the model opens its channels itself.
    Unopened,
    /// The reasoning channel.
    Reasoning,
    /// The visible response channel.
    Response,
}

/// The form in which the backend emits tool calls.
#[derive(Clone, Copy, Debug, PartialEq, Eq)]
pub enum UnifiedToolOutputMode<'a> {
    /// The model's own markup.
    Native,
    /// Bare JSON: one named tool's arguments, or whole call objects.
    GuidedJson { named_tool: Option<&'a str> },
}

/// What a [`UnifiedToolOutputMode`] says.
pub enum ModeView {
    Native,
    GuidedJson { named_tool: Option<Seq<char>> },
}

impl<'a> DeepView for UnifiedToolOutputMode<'a> {
    type V = ModeView;

    open spec fn deep_view(&self) -> ModeView {
        match self {
            UnifiedToolOutputMode::Native => ModeView::Native,
            UnifiedToolOutputMode::GuidedJson { named_tool } => ModeView::GuidedJson {
                named_tool: match named_tool {
                    Some(name) => Some(name@),
                    None => None,
                },
            },
        }
    }
}

/// The request's `tool_choice`.
#[derive(Debug, PartialEq, Eq)]
pub enum ToolChoice {
    /// No tool may be called.
    Disabled,
    /// The model decides.
    Auto,
    /// Some tool must be called.
    Required,
    /// This tool must be called.
    Named { name: String },
}

/// A tool as the request defines it.
#[derive(Debug, PartialEq)]
pub struct ToolDefinition {
    pub name: String,
    pub parameters: Option<serde_json::Value>,
    pub strict: Option<bool>,
}

/// A tool as the parser takes it.
#[derive(Debug, PartialEq)]
pub struct Tool {
    pub name: String,
    pub description: Option<String>,
    /// The parameter schema.
    pub parameters: serde_json::Value,
    pub strict: Option<bool>,
}

/// What a [`Tool`] says.
pub struct ToolView {
    pub name: Seq<char>,
    pub description: Option<Seq<char>>,
    pub parameters: serde_json::Value,
    pub strict: Option<bool>,
}

impl DeepView for Tool {
    type V = ToolView;

    open spec fn deep_view(&self) -> ToolView {
        ToolView {
            name: self.name@,
            description: self.description.deep_view(),
            parameters: self.parameters,
            strict: self.strict,
        }
    }
}

// --- chat chunks -----------------------------------------------------------------

/// Who a message is from.
#[derive(Clone, Copy, Debug, PartialEq, Eq, Structural)]
pub enum Role {
    System,
    User,
    Assistant,
    Tool,
    Function,
}

/// Why generation stopped.
#[derive(Clone, Copy, Debug, PartialEq, Eq, Structural)]
pub enum FinishReason {
    Stop,
    Length,
    ToolCalls,
    ContentFilter,
    FunctionCall,
}

/// The kind of a tool call.
#[derive(Clone, Copy, Debug, PartialEq, Eq, Structural)]
pub enum FunctionType {
    Function,
}

/// Visible content of a chunk.
#[derive(Debug, PartialEq)]
pub enum ChatCompletionMessageContent {
    Text(String),
    Parts(Vec<dynamo_protocols::types::ChatCompletionResponseContentPart>),
}

/// What a [`ChatCompletionMessageContent`] says.
pub enum ContentView {
    Text(Seq<char>),
    Parts(Seq<dynamo_protocols::types::ChatCompletionResponseContentPart>),
}

impl DeepView for ChatCompletionMessageContent {
    type V = ContentView;

    open spec fn deep_view(&self) -> ContentView {
        match self {
            ChatCompletionMessageContent::Text(text) => ContentView::Text(text@),
            ChatCompletionMessageContent::Parts(parts) => ContentView::Parts(parts@),
        }
    }
}

/// The function part of a streamed tool-call fragment.
#[derive(Debug, PartialEq, Eq)]
pub struct FunctionCallStream {
    pub name: Option<String>,
    pub arguments: Option<String>,
}

/// What a [`FunctionCallStream`] says.
pub struct FunctionView {
    pub name: Option<Seq<char>>,
    pub arguments: Option<Seq<char>>,
}

impl DeepView for FunctionCallStream {
    type V = FunctionView;

    open spec fn deep_view(&self) -> FunctionView {
        FunctionView { name: self.name.deep_view(), arguments: self.arguments.deep_view() }
    }
}

/// A streamed tool-call fragment.
#[derive(Debug, PartialEq, Eq)]
pub struct ChatCompletionMessageToolCallChunk {
    pub index: u32,
    pub id: Option<String>,
    pub kind: Option<FunctionType>,
    pub function: Option<FunctionCallStream>,
}

/// What a [`ChatCompletionMessageToolCallChunk`] says.
pub struct ToolChunkView {
    pub index: u32,
    pub id: Option<Seq<char>>,
    pub kind: Option<FunctionType>,
    pub function: Option<FunctionView>,
}

impl DeepView for ChatCompletionMessageToolCallChunk {
    type V = ToolChunkView;

    open spec fn deep_view(&self) -> ToolChunkView {
        ToolChunkView {
            index: self.index,
            id: self.id.deep_view(),
            kind: self.kind,
            function: self.function.deep_view(),
        }
    }
}

/// What one chunk adds to a choice.
#[derive(Debug, PartialEq)]
pub struct ChatCompletionStreamResponseDelta {
    pub role: Option<Role>,
    pub content: Option<ChatCompletionMessageContent>,
    pub tool_calls: Option<Vec<ChatCompletionMessageToolCallChunk>>,
    pub function_call: Option<
        dynamo_protocols::types::ChatCompletionStreamResponseDeltaFunctionCall,
    >,
    pub refusal: Option<String>,
    pub reasoning_content: Option<String>,
}

/// One choice of one streamed chunk.
#[derive(Debug, PartialEq)]
pub struct ChatChoiceStream {
    pub index: u32,
    pub delta: ChatCompletionStreamResponseDelta,
    pub finish_reason: Option<FinishReason>,
    pub logprobs: Option<dynamo_protocols::types::ChatChoiceLogprobs>,
}

/// What a [`ChatChoiceStream`] says.
pub struct ChoiceView {
    pub index: u32,
    pub role: Option<Role>,
    pub content: Option<ContentView>,
    pub tool_calls: Option<Seq<ToolChunkView>>,
    pub function_call: Option<
        dynamo_protocols::types::ChatCompletionStreamResponseDeltaFunctionCall,
    >,
    pub refusal: Option<Seq<char>>,
    pub reasoning_content: Option<Seq<char>>,
    pub finish_reason: Option<FinishReason>,
    pub logprobs: Option<dynamo_protocols::types::ChatChoiceLogprobs>,
}

impl DeepView for ChatChoiceStream {
    type V = ChoiceView;

    open spec fn deep_view(&self) -> ChoiceView {
        ChoiceView {
            index: self.index,
            role: self.delta.role,
            content: self.delta.content.deep_view(),
            tool_calls: self.delta.tool_calls.deep_view(),
            function_call: self.delta.function_call,
            refusal: self.delta.refusal.deep_view(),
            reasoning_content: self.delta.reasoning_content.deep_view(),
            finish_reason: self.finish_reason,
            logprobs: self.logprobs,
        }
    }
}

} // verus!
