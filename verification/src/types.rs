//! Plain data types shared by every part of the SDK.

use vstd::prelude::*;

verus! {

/// The model used when no other model is configured.
pub const DEFAULT_MODEL: &'static str = "gemini-3.5-flash";

/// The model used for image generation when no other model is configured.
pub const DEFAULT_IMAGE_GENERATION_MODEL: &'static str = "gemini-3.1-flash-image-preview";

/// How much reasoning the model is asked to spend on a turn.
#[derive(Debug, Clone, Copy, PartialEq, Eq, Structural)]
pub enum ThinkingLevel {
    Minimal,
    Low,
    Medium,
    High,
}

/// Generation settings of one model entry.
#[derive(Debug, Clone)]
pub struct GenerationConfig {
    pub thinking_level: Option<ThinkingLevel>,
}

impl Default for GenerationConfig {
    fn default() -> (r: Self)
        ensures
            r.thinking_level is None,
    {
        GenerationConfig { thinking_level: None }
    }
}

/// One configured model: its name, an optional key and generation settings.
#[derive(Debug, Clone)]
pub struct ModelEntry {
    pub name: String,
    pub api_key: Option<String>,
    pub generation: GenerationConfig,
}

/// A model entry for `name` with no key of its own and default generation settings.
pub fn model_entry_named(name: &str) -> (r: ModelEntry)
    ensures
        r.name@ == name@,
        r.api_key is None,
        r.generation.thinking_level is None,
{
    ModelEntry { name: name.to_owned(), api_key: None, generation: GenerationConfig::default() }
}

/// The entry of the default text model.
pub fn default_model_entry() -> (r: ModelEntry)
    ensures
        r.name@ == DEFAULT_MODEL@,
        r.api_key is None,
        r.generation.thinking_level is None,
{
    model_entry_named(DEFAULT_MODEL)
}

/// The entry of the default image generation model.
pub fn default_image_generation_entry() -> (r: ModelEntry)
    ensures
        r.name@ == DEFAULT_IMAGE_GENERATION_MODEL@,
        r.api_key is None,
        r.generation.thinking_level is None,
{
    model_entry_named(DEFAULT_IMAGE_GENERATION_MODEL)
}

impl Default for ModelEntry {
    fn default() -> (r: Self)
        ensures
            r.name@ == DEFAULT_MODEL@,
            r.api_key is None,
            r.generation.thinking_level is None,
    {
        default_model_entry()
    }
}

/// The models used for text and for image generation.
#[derive(Debug, Clone)]
pub struct ModelConfig {
    pub default: ModelEntry,
    pub image_generation: ModelEntry,
}

impl Default for ModelConfig {
    fn default() -> (r: Self)
        ensures
            r.default.name@ == DEFAULT_MODEL@,
            r.default.api_key is None,
            r.default.generation.thinking_level is None,
            r.image_generation.name@ == DEFAULT_IMAGE_GENERATION_MODEL@,
            r.image_generation.api_key is None,
            r.image_generation.generation.thinking_level is None,
    {
        ModelConfig { default: default_model_entry(), image_generation: default_image_generation_entry() }
    }
}

/// Credentials and model selection for the Gemini backend.
#[derive(Debug, Clone)]
pub struct GeminiConfig {
    pub api_key: Option<String>,
    pub models: ModelConfig,
}

impl Default for GeminiConfig {
    fn default() -> (r: Self)
        ensures
            r.api_key is None,
            r.models.default.name@ == DEFAULT_MODEL@,
            r.models.default.api_key is None,
            r.models.image_generation.name@ == DEFAULT_IMAGE_GENERATION_MODEL@,
            r.models.image_generation.api_key is None,
    {
        GeminiConfig { api_key: None, models: ModelConfig::default() }
    }
}

/// One titled section appended to the harness's own system instructions.
#[derive(Debug, Clone)]
pub struct SystemInstructionSection {
    pub content: String,
    pub title: String,
}

/// System instructions that replace the harness's own.
#[derive(Debug, Clone)]
pub struct CustomSystemInstructions {
    pub text: String,
}

/// System instructions added to the harness's own: an optional identity and sections.
#[derive(Debug, Clone)]
pub struct AppendedSystemInstructions {
    pub custom_identity: Option<String>,
    pub appended_sections: Vec<SystemInstructionSection>,
}

/// The two ways of giving system instructions.
#[derive(Debug, Clone)]
pub enum SystemInstructions {
    Custom(CustomSystemInstructions),
    Appended(AppendedSystemInstructions),
}

/// The tools that the harness itself provides.
#[derive(Debug, Clone, Copy, PartialEq, Eq, Hash, Structural)]
pub enum BuiltinTools {
    CreateFile,
    EditFile,
    FindFile,
    ListDir,
    RunCommand,
    SearchDir,
    ViewFile,
    StartSubagent,
    GenerateImage,
    Finish,
}

/// The protocol name of a built-in tool, as the tool table of the documentation gives it.
pub open spec fn builtin_tool_name(t: BuiltinTools) -> Seq<char> {
    match t {
        BuiltinTools::CreateFile => "WRITE_TO_FILE"@,
        BuiltinTools::EditFile => "EDIT_FILE"@,
        BuiltinTools::FindFile => "FIND_FILE"@,
        BuiltinTools::ListDir => "LIST_DIR"@,
        BuiltinTools::RunCommand => "RUN_COMMAND"@,
        BuiltinTools::SearchDir => "GREP_SEARCH"@,
        BuiltinTools::ViewFile => "VIEW_FILE"@,
        BuiltinTools::StartSubagent => "START_SUBAGENT"@,
        BuiltinTools::GenerateImage => "GENERATE_IMAGE"@,
        BuiltinTools::Finish => "FINISH"@,
    }
}

/// The built-in tools that are read-only: they never change the file system.
/// `FINISH` only ends the trajectory, so it counts among them.
pub open spec fn read_only_tools() -> Seq<BuiltinTools> {
    seq![
        BuiltinTools::FindFile,
        BuiltinTools::ListDir,
        BuiltinTools::ViewFile,
        BuiltinTools::SearchDir,
        BuiltinTools::Finish,
    ]
}

/// Law: every built-in tool has its own protocol name, made of upper-case ASCII
/// letters and underscores only.
pub proof fn law_builtin_tool_names(a: BuiltinTools, b: BuiltinTools)
    ensures
        a != b ==> builtin_tool_name(a) != builtin_tool_name(b),
        builtin_tool_name(a).len() > 0,
        forall|i: int| 0 <= i < builtin_tool_name(a).len() ==>
            ('A' <= #[trigger] builtin_tool_name(a)[i] <= 'Z' || builtin_tool_name(a)[i] == '_'),
{
    reveal_strlit("WRITE_TO_FILE");
    reveal_strlit("EDIT_FILE");
    reveal_strlit("FIND_FILE");
    reveal_strlit("LIST_DIR");
    reveal_strlit("RUN_COMMAND");
    reveal_strlit("GREP_SEARCH");
    reveal_strlit("VIEW_FILE");
    reveal_strlit("START_SUBAGENT");
    reveal_strlit("GENERATE_IMAGE");
    reveal_strlit("FINISH");
    let na = builtin_tool_name(a);
    let nb = builtin_tool_name(b);
    if a != b && na == nb {
        assert(na.len() == nb.len() && na[0] == nb[0]);
    }
    assert forall|i: int| 0 <= i < na.len() implies ('A' <= #[trigger] na[i] <= 'Z' || na[i] == '_') by {
        match a {
            BuiltinTools::CreateFile => assert(0 <= i < 13),
            BuiltinTools::EditFile => assert(0 <= i < 9),
            BuiltinTools::FindFile => assert(0 <= i < 9),
            BuiltinTools::ListDir => assert(0 <= i < 8),
            BuiltinTools::RunCommand => assert(0 <= i < 11),
            BuiltinTools::SearchDir => assert(0 <= i < 11),
            BuiltinTools::ViewFile => assert(0 <= i < 9),
            BuiltinTools::StartSubagent => assert(0 <= i < 14),
            BuiltinTools::GenerateImage => assert(0 <= i < 14),
            BuiltinTools::Finish => assert(0 <= i < 6),
        }
    }
}

impl BuiltinTools {
    /// The protocol name of the tool, such as `"WRITE_TO_FILE"`.
    pub fn as_str(&self) -> (r: &'static str)
        ensures
            r@ == builtin_tool_name(*self),
    {
        match self {
            BuiltinTools::CreateFile => "WRITE_TO_FILE",
            BuiltinTools::EditFile => "EDIT_FILE",
            BuiltinTools::FindFile => "FIND_FILE",
            BuiltinTools::ListDir => "LIST_DIR",
            BuiltinTools::RunCommand => "RUN_COMMAND",
            BuiltinTools::SearchDir => "GREP_SEARCH",
            BuiltinTools::ViewFile => "VIEW_FILE",
            BuiltinTools::StartSubagent => "START_SUBAGENT",
            BuiltinTools::GenerateImage => "GENERATE_IMAGE",
            BuiltinTools::Finish => "FINISH",
        }
    }

    /// The read-only tools, in the order `FIND_FILE`, `LIST_DIR`, `VIEW_FILE`,
    /// `GREP_SEARCH`, `FINISH`.
    pub fn read_only() -> (r: Vec<BuiltinTools>)
        ensures
            r@ == read_only_tools(),
    {
        let r = vec![
            BuiltinTools::FindFile,
            BuiltinTools::ListDir,
            BuiltinTools::ViewFile,
            BuiltinTools::SearchDir,
            BuiltinTools::Finish,
        ];
        assert(r@ =~= read_only_tools());
        r
    }
}

/// Which built-in tools the session offers, and a few harness settings.
#[derive(Debug, Clone)]
pub struct CapabilitiesConfig {
    pub enabled_tools: Option<Vec<BuiltinTools>>,
    pub disabled_tools: Option<Vec<BuiltinTools>>,
    pub compaction_threshold: Option<u32>,
    pub finish_tool_schema_json: Option<String>,
    pub image_model: Option<String>,
}

impl Default for CapabilitiesConfig {
    fn default() -> (r: Self)
        ensures
            r.enabled_tools is None,
            r.disabled_tools is None,
            r.compaction_threshold is None,
            r.finish_tool_schema_json is None,
            r.image_model is None,
    {
        CapabilitiesConfig {
            enabled_tools: None,
            disabled_tools: None,
            compaction_threshold: None,
            finish_tool_schema_json: None,
            image_model: None,
        }
    }
}

/// The value of a setting that is on unless configured otherwise.
pub fn default_true() -> (r: bool)
    ensures
        r,
{
    true
}

/// `serde_json::Value`, declared so that tool arguments and results can be
/// carried through; nothing is known of what it holds.
#[verifier::external_type_specification]
#[verifier::external_body]
pub struct JsonValueDecl(serde_json::Value);

/// `Clone` of `serde_json::Value`, written by its `derive(Clone)`: the contract
/// claims that the copy is the same value, since it copies the tree node for node.
pub assume_specification[ <serde_json::Value as Clone>::clone ](value: &serde_json::Value) -> (res: serde_json::Value)
    ensures
        res == *value,
;

/// A request of the model to run a tool.
#[derive(Debug)]
pub struct ToolCall {
    pub id: String,
    pub name: String,
    pub args: serde_json::Value,
    /// The file system path that the call works on, where it has one.
    pub canonical_path: Option<String>,
}

/// What running a tool gave back.
#[derive(Debug)]
pub struct ToolResult {
    pub name: String,
    pub id: Option<String>,
    pub result: Option<serde_json::Value>,
    pub error: Option<String>,
}

impl Clone for ToolCall {
    fn clone(&self) -> (r: Self)
        ensures
            r == *self,
    {
        ToolCall {
            id: self.id.clone(),
            name: self.name.clone(),
            args: self.args.clone(),
            canonical_path: self.canonical_path.clone(),
        }
    }
}

impl Clone for ToolResult {
    fn clone(&self) -> (r: Self)
        ensures
            r == *self,
    {
        ToolResult {
            name: self.name.clone(),
            id: self.id.clone(),
            result: self.result.clone(),
            error: self.error.clone(),
        }
    }
}

/// Token counts reported by the model.
#[derive(Debug, Clone, Copy, PartialEq, Eq, Structural)]
pub struct UsageMetadata {
    pub prompt_token_count: i32,
    pub candidates_token_count: i32,
    pub total_token_count: i32,
    pub cached_content_token_count: i32,
    pub thoughts_token_count: i32,
}

/// Usage with every count zero.
pub open spec fn zero_usage() -> UsageMetadata {
    UsageMetadata {
        prompt_token_count: 0,
        candidates_token_count: 0,
        total_token_count: 0,
        cached_content_token_count: 0,
        thoughts_token_count: 0,
    }
}

impl Default for UsageMetadata {
    fn default() -> (r: Self)
        ensures
            r == zero_usage(),
    {
        UsageMetadata {
            prompt_token_count: 0,
            candidates_token_count: 0,
            total_token_count: 0,
            cached_content_token_count: 0,
            thoughts_token_count: 0,
        }
    }
}

/// What kind of step the harness reported.
#[derive(Debug, Clone, Copy, PartialEq, Eq, Structural)]
pub enum StepType {
    TextResponse,
    ToolCall,
    SystemMessage,
    Compaction,
    Finish,
    Unknown,
}

/// Who produced a step.
#[derive(Debug, Clone, Copy, PartialEq, Eq, Structural)]
pub enum StepSource {
    System,
    User,
    Model,
    Unknown,
}

/// Whom a step is addressed to.
#[derive(Debug, Clone, Copy, PartialEq, Eq, Structural)]
pub enum StepTarget {
    User,
    Environment,
    Unspecified,
    Unknown,
}

/// Where a step is in its life cycle.
#[derive(Debug, Clone, Copy, PartialEq, Eq, Structural)]
pub enum StepStatus {
    Active,
    Done,
    WaitingForUser,
    Error,
    Canceled,
    Unknown,
}

/// One step of a conversation trajectory, as the harness reports it.
#[derive(Debug)]
pub struct Step {
    pub id: String,
    pub step_index: u32,
    pub step_type: StepType,
    pub source: StepSource,
    pub target: StepTarget,
    pub status: StepStatus,
    pub content: String,
    pub content_delta: String,
    pub thinking: String,
    pub thinking_delta: String,
    pub tool_calls: Vec<ToolCall>,
    pub error: String,
    pub is_complete_response: Option<bool>,
    pub structured_output: Option<serde_json::Value>,
    pub usage_metadata: Option<UsageMetadata>,
    pub cascade_id: String,
    pub trajectory_id: String,
    pub http_code: u32,
}

impl Clone for Step {
    fn clone(&self) -> (r: Self)
        ensures
            r.tool_calls@ == self.tool_calls@,
            r == (Step { tool_calls: r.tool_calls, ..*self }),
    {
        let tool_calls = self.tool_calls.clone();
        assert forall|i: int| 0 <= i < tool_calls@.len() implies tool_calls@[i] == self.tool_calls@[i] by {
            assert(cloned::<ToolCall>(self.tool_calls[i], tool_calls[i]));
        }
        assert(tool_calls@ =~= self.tool_calls@);
        Step {
            id: self.id.clone(),
            step_index: self.step_index,
            step_type: self.step_type,
            source: self.source,
            target: self.target,
            status: self.status,
            content: self.content.clone(),
            content_delta: self.content_delta.clone(),
            thinking: self.thinking.clone(),
            thinking_delta: self.thinking_delta.clone(),
            tool_calls,
            error: self.error.clone(),
            is_complete_response: self.is_complete_response,
            structured_output: self.structured_output.clone(),
            usage_metadata: self.usage_metadata,
            cascade_id: self.cascade_id.clone(),
            trajectory_id: self.trajectory_id.clone(),
            http_code: self.http_code,
        }
    }
}

impl Default for Step {
    fn default() -> (r: Self)
        ensures
            r.id@.len() == 0,
            r.step_index == 0,
            r.step_type == StepType::Unknown,
            r.source == StepSource::Unknown,
            r.target == StepTarget::Unknown,
            r.status == StepStatus::Unknown,
            r.content@.len() == 0,
            r.content_delta@.len() == 0,
            r.thinking@.len() == 0,
            r.thinking_delta@.len() == 0,
            r.tool_calls@.len() == 0,
            r.error@.len() == 0,
            r.is_complete_response is None,
            r.structured_output is None,
            r.usage_metadata is None,
            r.cascade_id@.len() == 0,
            r.trajectory_id@.len() == 0,
            r.http_code == 0,
    {
        Step {
            id: String::new(),
            step_index: 0,
            step_type: StepType::Unknown,
            source: StepSource::Unknown,
            target: StepTarget::Unknown,
            status: StepStatus::Unknown,
            content: String::new(),
            content_delta: String::new(),
            thinking: String::new(),
            thinking_delta: String::new(),
            tool_calls: Vec::new(),
            error: String::new(),
            is_complete_response: None,
            structured_output: None,
            usage_metadata: None,
            cascade_id: String::new(),
            trajectory_id: String::new(),
            http_code: 0,
        }
    }
}

/// The answer of a hook or a policy: go on (`allow`) or stop, with a message.
#[derive(Debug, Clone)]
pub struct HookResult {
    pub allow: bool,
    pub message: String,
}

impl HookResult {
    /// A result that lets the action go on, with an empty message.
    pub fn allowed() -> (r: HookResult)
        ensures
            r.allow,
            r.message@.len() == 0,
    {
        HookResult { allow: true, message: String::new() }
    }

    /// A result that stops the action, with the given message.
    pub fn denied(message: String) -> (r: HookResult)
        ensures
            !r.allow,
            r.message == message,
    {
        HookResult { allow: false, message }
    }
}

impl Default for HookResult {
    fn default() -> (r: Self)
        ensures
            !r.allow,
            r.message@.len() == 0,
    {
        HookResult { allow: false, message: String::new() }
    }
}

/// The user's answer to one question.
#[derive(Debug, Clone)]
pub struct QuestionResponse {
    pub selected_option_ids: Option<Vec<String>>,
    pub freeform_response: String,
    pub skipped: bool,
}

/// The answers to a set of questions, or their cancellation.
#[derive(Debug, Clone)]
pub struct QuestionHookResult {
    pub responses: Vec<QuestionResponse>,
    pub cancelled: bool,
}

/// One option offered with a question.
#[derive(Debug, Clone)]
pub struct AskQuestionOption {
    pub id: String,
    pub text: String,
}

/// A question that the agent asks the user.
#[derive(Debug, Clone)]
pub struct AskQuestionEntry {
    pub question: String,
    pub options: Vec<AskQuestionOption>,
    pub is_multi_select: bool,
}

/// The outcome of a whole chat turn.
#[derive(Debug, Clone)]
pub struct ChatResponse {
    pub text: String,
    pub thinking: String,
    pub steps: Vec<Step>,
    pub usage_metadata: UsageMetadata,
}

/// A piece of a streamed response.
#[derive(Debug, Clone)]
pub enum StreamChunk {
    Thought { step_index: u32, text: String },
    Text { step_index: u32, text: String },
    ToolCall(ToolCall),
}

}
