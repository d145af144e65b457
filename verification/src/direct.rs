//! Request building and response reading for the Gemini REST API, for use
//! without the harness. Sending requests is left to the caller's HTTP client.

use vstd::prelude::*;
use vstd::slice::slice_subrange;
use vstd::string::StringSliceAdditionalSpecFns;
use crate::types::{DEFAULT_MODEL, GeminiConfig, SystemInstructions, SystemInstructionSection};

verus! {

/// One entry of a conversation history.
#[derive(Debug)]
pub struct ChatEntry {
    /// `"user"` or `"model"`.
    pub role: String,
    /// The text of the message.
    pub content: String,
}

impl Clone for ChatEntry {
    fn clone(&self) -> (r: Self)
        ensures
            r == *self,
    {
        ChatEntry { role: self.role.clone(), content: self.content.clone() }
    }
}

/// An HTTP request ready to be sent to the Gemini API.
#[derive(Debug)]
pub struct GeminiRequest {
    /// The full URL.
    pub url: String,
    /// The scheme part of the URL.
    pub scheme: String,
    /// The host part of the URL.
    pub authority: String,
    /// The path part of the URL.
    pub path: String,
    /// The headers, as names and byte values.
    pub headers: Vec<(String, Vec<u8>)>,
    /// The JSON body.
    pub body: Vec<u8>,
}

/// The host of the Gemini API.
pub const GEMINI_AUTHORITY: &'static str = "generativelanguage.googleapis.com";

/// The text of appended sections: for each, a `## ` heading line with its
/// title, its content on the next line, and a blank line.
pub open spec fn sections_text(sections: Seq<SystemInstructionSection>) -> Seq<char>
    decreases sections.len(),
{
    if sections.len() == 0 {
        seq![]
    } else {
        sections_text(sections.drop_last()) + "## "@ + sections.last().title@ + "\n"@ + sections.last().content@ + "\n\n"@
    }
}

/// Law: the text of appended sections is the sections' texts in their order:
/// that of two runs of sections is the first's followed by the second's, and
/// one section reads as a `## ` heading with its title, a line end, its
/// content and a blank line.
pub proof fn law_sections_in_order(a: Seq<SystemInstructionSection>, b: Seq<SystemInstructionSection>, one: SystemInstructionSection)
    ensures
        sections_text(a + b) == sections_text(a) + sections_text(b),
        sections_text(seq![one]) == "## "@ + one.title@ + "\n"@ + one.content@ + "\n\n"@,
    decreases b.len(),
{
    let single = seq![one];
    assert(single.drop_last() =~= Seq::<SystemInstructionSection>::empty());
    assert(single.last() == one);
    assert(sections_text(single.drop_last()) == Seq::<char>::empty());
    assert(sections_text(single) == sections_text(single.drop_last()) + "## "@ + one.title@ + "\n"@ + one.content@ + "\n\n"@);
    assert(Seq::<char>::empty() + "## "@ + one.title@ + "\n"@ + one.content@ + "\n\n"@
        =~= "## "@ + one.title@ + "\n"@ + one.content@ + "\n\n"@);
    if b.len() == 0 {
        assert(a + b =~= a);
        assert(sections_text(a) + Seq::<char>::empty() =~= sections_text(a));
    } else {
        law_sections_in_order(a, b.drop_last(), one);
        assert((a + b).drop_last() =~= a + b.drop_last());
        assert((a + b).last() == b.last());
        let x = sections_text(a);
        let y = sections_text(b.drop_last());
        let l = b.last();
        assert(x + y + "## "@ + l.title@ + "\n"@ + l.content@ + "\n\n"@
            =~= x + (y + "## "@ + l.title@ + "\n"@ + l.content@ + "\n\n"@));
    }
}

/// The system instruction text of `si`: custom text as it is; appended
/// instructions as the identity line (when there is one) then the sections.
pub open spec fn instruction_text(si: SystemInstructions) -> Seq<char> {
    match si {
        SystemInstructions::Custom(c) => c.text@,
        SystemInstructions::Appended(a) => (match a.custom_identity {
            Some(id) => id@ + "\n"@,
            None => seq![],
        }) + sections_text(a.appended_sections@),
    }
}

/// The system instruction text of `instructions`.
pub fn system_instruction_text(instructions: &SystemInstructions) -> (r: String)
    ensures
        r@ == instruction_text(*instructions),
{
    match instructions {
        SystemInstructions::Custom(c) => c.text.clone(),
        SystemInstructions::Appended(a) => {
            let mut text = String::new();
            match &a.custom_identity {
                Some(id) => {
                    text.append(id.as_str());
                    text.append("\n");
                },
                None => {},
            }
            let ghost head = text@;
            let sections = &a.appended_sections;
            let mut i: usize = 0;
            assert(sections@.take(0) =~= Seq::<SystemInstructionSection>::empty());
            assert(text@ =~= head + sections_text(sections@.take(0)));
            while i < sections.len()
                invariant
                    i <= sections@.len(),
                    text@ == head + sections_text(sections@.take(i as int)),
                decreases sections.len() - i,
            {
                assert(sections@.take(i + 1).drop_last() =~= sections@.take(i as int));
                assert(sections@.take(i + 1).last() == sections@[i as int]);
                text.append("## ");
                text.append(sections[i].title.as_str());
                text.append("\n");
                text.append(sections[i].content.as_str());
                text.append("\n\n");
                i = i + 1;
            }
            assert(sections@.take(sections@.len() as int) =~= sections@);
            text
        },
    }
}

/// The path of the content generation endpoint of `model`.
pub open spec fn request_path_of(model: Seq<char>) -> Seq<char> {
    "/v1beta/models/"@ + model + ":generateContent"@
}

/// The content generation path of `model`.
pub fn request_path(model: &str) -> (r: String)
    ensures
        r@ == request_path_of(model@),
{
    let mut p = "/v1beta/models/".to_owned();
    p.append(model);
    p.append(":generateContent");
    p
}

/// A request to generate content with `model`, authenticated by `api_key` in
/// the `x-goog-api-key` header, with the JSON body `body`.
pub fn build_request(model: &str, api_key: &str, body: Vec<u8>) -> (r: GeminiRequest)
    ensures
        r.scheme@ == "https"@,
        r.authority@ == GEMINI_AUTHORITY@,
        r.path@ == request_path_of(model@),
        r.url@ == "https://"@ + GEMINI_AUTHORITY@ + request_path_of(model@),
        r.headers@.len() == 2,
        r.headers@[0].0@ == "content-type"@,
        r.headers@[0].1@ == "application/json".spec_bytes(),
        r.headers@[1].0@ == "x-goog-api-key"@,
        r.headers@[1].1@ == api_key.spec_bytes(),
        r.body == body,
{
    let path = request_path(model);
    let mut url = "https://".to_owned();
    url.append(GEMINI_AUTHORITY);
    url.append(path.as_str());
    let mut headers: Vec<(String, Vec<u8>)> = Vec::new();
    headers.push(("content-type".to_owned(), "application/json".as_bytes_vec()));
    headers.push(("x-goog-api-key".to_owned(), api_key.as_bytes_vec()));
    GeminiRequest {
        url,
        scheme: "https".to_owned(),
        authority: GEMINI_AUTHORITY.to_owned(),
        path,
        headers,
        body,
    }
}

/// The model that a client made from `config` talks to: the configured
/// default model, or `DEFAULT_MODEL` when its name is empty.
pub fn client_model(config: &GeminiConfig) -> (r: String)
    ensures
        r@ == if config.models.default.name@.len() == 0 {
            DEFAULT_MODEL@
        } else {
            config.models.default.name@
        },
{
    let name = &config.models.default.name;
    if name.as_str().is_empty() {
        DEFAULT_MODEL.to_owned()
    } else {
        name.clone()
    }
}

/// The entries sent to the API: the history, then `message` from the user.
pub fn request_contents(history: &Vec<ChatEntry>, message: &str) -> (r: Vec<ChatEntry>)
    ensures
        r@.len() == history@.len() + 1,
        forall|i: int| 0 <= i < history@.len() ==> #[trigger] r@[i] == history@[i],
        r@[history@.len() as int].role@ == "user"@,
        r@[history@.len() as int].content@ == message@,
{
    let mut r: Vec<ChatEntry> = Vec::new();
    let mut i: usize = 0;
    while i < history.len()
        invariant
            i <= history@.len(),
            r@.len() == i,
            forall|k: int| 0 <= k < i ==> #[trigger] r@[k] == history@[k],
        decreases history.len() - i,
    {
        r.push(history[i].clone());
        i = i + 1;
    }
    r.push(ChatEntry { role: "user".to_owned(), content: message.to_owned() });
    r
}

/// `serde_json::Error`, declared so that a parse error can be handed back;
/// nothing is known of what it holds.
#[verifier::external_type_specification]
#[verifier::external_body]
pub struct JsonErrorDecl(serde_json::Error);

/// The value that the JSON library reads from `bytes`, if they are JSON.
pub uninterp spec fn json_parsed(bytes: Seq<u8>) -> Option<serde_json::Value>;

/// The member `key` of the JSON value `v` (null when `v` is no object or lacks it).
pub uninterp spec fn json_member(v: serde_json::Value, key: Seq<char>) -> serde_json::Value;

/// The element at `index` of the JSON value `v` (null when `v` is no array or is too short).
pub uninterp spec fn json_element(v: serde_json::Value, index: int) -> serde_json::Value;

/// The text of the JSON value `v`, when it is a string.
pub uninterp spec fn json_text(v: serde_json::Value) -> Option<Seq<char>>;

/// The text that the standard library reads from `bytes`, invalid UTF-8
/// sequences replaced by U+FFFD.
pub uninterp spec fn lossy_text(bytes: Seq<u8>) -> Seq<char>;

/// Reads JSON with `serde_json::from_slice`; the result is named `json_parsed`.
#[verifier::external_body]
fn parse_json(bytes: &[u8]) -> (r: Result<serde_json::Value, serde_json::Error>)
    ensures
        r is Ok <==> json_parsed(bytes@) is Some,
        r matches Ok(v) ==> json_parsed(bytes@) == Some(v),
{
    serde_json::from_slice(bytes)
}

/// Indexes a JSON value by a key (`serde_json::Value`'s `Index<&str>`); the
/// result is named `json_member`.
#[verifier::external_body]
fn member<'a>(v: &'a serde_json::Value, key: &str) -> (r: &'a serde_json::Value)
    ensures
        *r == json_member(*v, key@),
{
    &v[key]
}

/// Indexes a JSON value by a position (`serde_json::Value`'s `Index<usize>`);
/// the result is named `json_element`.
#[verifier::external_body]
fn element(v: &serde_json::Value, index: usize) -> (r: &serde_json::Value)
    ensures
        *r == json_element(*v, index as int),
{
    &v[index]
}

/// The text of a JSON string (`serde_json::Value::as_str`); the result is named `json_text`.
#[verifier::external_body]
fn text_of(v: &serde_json::Value) -> (r: Option<&str>)
    ensures
        r is Some <==> json_text(*v) is Some,
        r matches Some(s) ==> json_text(*v) == Some(s@),
{
    v.as_str()
}

/// Reads bytes as UTF-8 text with `String::from_utf8_lossy`; the result is named `lossy_text`.
#[verifier::external_body]
fn decode_lossy(bytes: &[u8]) -> (r: String)
    ensures
        r@ == lossy_text(bytes@),
{
    String::from_utf8_lossy(bytes).into_owned()
}

/// Where a response keeps its generated text:
/// `candidates[0].content.parts[0].text`.
pub open spec fn response_text_of(v: serde_json::Value) -> Option<Seq<char>> {
    json_text(json_member(json_element(json_member(json_member(json_element(json_member(v, "candidates"@), 0), "content"@), "parts"@), 0), "text"@))
}

/// The generated text of a parsed response, if it has one.
pub fn response_text(v: &serde_json::Value) -> (r: Option<String>)
    ensures
        match r {
            Some(s) => response_text_of(*v) == Some(s@),
            None => response_text_of(*v) is None,
        },
{
    let candidates = member(v, "candidates");
    let first = element(candidates, 0);
    let content = member(first, "content");
    let parts = member(content, "parts");
    let part = element(parts, 0);
    let text = member(part, "text");
    match text_of(text) {
        Some(s) => Some(s.to_owned()),
        None => None,
    }
}

/// Why a response cannot be read.
#[derive(Debug)]
pub enum ResponseError {
    /// The body is not JSON.
    Json(serde_json::Error),
    /// The body is JSON without generated text; the text is the error message.
    UnexpectedStructure(String),
}

/// The number of body bytes quoted in an error.
pub const QUOTED_BYTES: usize = 500;

/// The message for a response without generated text, quoting the start of the body.
pub open spec fn unexpected_structure_message(body: Seq<u8>) -> Seq<char> {
    "Unexpected Gemini response structure: "@ + lossy_text(body.take(if body.len() < 500 { body.len() as int } else { 500 }))
}

/// The generated text of a response body: `Ok` exactly when the body is JSON
/// that has text at `candidates[0].content.parts[0].text`.
pub fn parse_response(body: &[u8]) -> (r: Result<String, ResponseError>)
    ensures
        r matches Ok(s) ==> (json_parsed(body@) matches Some(v) && response_text_of(v) == Some(s@)),
        r matches Err(ResponseError::Json(_)) <==> json_parsed(body@) is None,
        r matches Err(ResponseError::UnexpectedStructure(m)) ==> (json_parsed(body@) matches Some(v) && response_text_of(v) is None && m@ == unexpected_structure_message(body@)),
        r is Ok || r matches Err(ResponseError::Json(_)) || r matches Err(ResponseError::UnexpectedStructure(_)),
        (json_parsed(body@) matches Some(v) && response_text_of(v) is Some) ==> r is Ok,
{
    let v = match parse_json(body) {
        Ok(v) => v,
        Err(e) => return Err(ResponseError::Json(e)),
    };
    match response_text(&v) {
        Some(s) => Ok(s),
        None => {
            let n = if body.len() < QUOTED_BYTES { body.len() } else { QUOTED_BYTES };
            let quoted = slice_subrange(body, 0, n);
            assert(quoted@ =~= body@.take(n as int));
            let mut m = "Unexpected Gemini response structure: ".to_owned();
            m.append(decode_lossy(quoted).as_str());
            Err(ResponseError::UnexpectedStructure(m))
        },
    }
}

/// The text of a decimal digit.
pub open spec fn digit_text(d: int) -> Seq<char> {
    if d == 0 { "0"@ } else if d == 1 { "1"@ } else if d == 2 { "2"@ } else if d == 3 { "3"@ } else if d == 4 { "4"@ }
    else if d == 5 { "5"@ } else if d == 6 { "6"@ } else if d == 7 { "7"@ } else if d == 8 { "8"@ } else { "9"@ }
}

/// The decimal text of `n`, without leading zeros.
pub open spec fn decimal_text(n: nat) -> Seq<char>
    decreases n,
{
    if n < 10 {
        digit_text(n as int)
    } else {
        decimal_text(n / 10) + digit_text((n % 10) as int)
    }
}

/// Law: the text of a digit is the one character that stands for it, the
/// characters `0` to `9` following each other.
pub proof fn law_digit_text(d: int)
    requires
        0 <= d < 10,
    ensures
        digit_text(d).len() == 1,
        digit_text(d)[0] as int == '0' as int + d,
{
    reveal_strlit("0");
    reveal_strlit("1");
    reveal_strlit("2");
    reveal_strlit("3");
    reveal_strlit("4");
    reveal_strlit("5");
    reveal_strlit("6");
    reveal_strlit("7");
    reveal_strlit("8");
    reveal_strlit("9");
}

/// The text of the decimal digit `d`.
fn digit(d: u64) -> (r: &'static str)
    requires
        d < 10,
    ensures
        r@ == digit_text(d as int),
{
    if d == 0 { "0" } else if d == 1 { "1" } else if d == 2 { "2" } else if d == 3 { "3" } else if d == 4 { "4" }
    else if d == 5 { "5" } else if d == 6 { "6" } else if d == 7 { "7" } else if d == 8 { "8" } else { "9" }
}

/// The decimal text of `n`.
pub fn decimal(n: u64) -> (r: String)
    ensures
        r@ == decimal_text(n as nat),
    decreases n,
{
    if n < 10 {
        digit(n).to_owned()
    } else {
        let mut s = decimal(n / 10);
        s.append(digit(n % 10));
        s
    }
}

/// The message of an API error response.
pub open spec fn api_error_message(status: u16, body: Seq<u8>) -> Seq<char> {
    "Gemini API error ("@ + decimal_text(status as nat) + "): "@ + lossy_text(body)
}

/// The message for an error response with HTTP status `status` and body `body`.
pub fn error_text(status: u16, body: &[u8]) -> (r: String)
    ensures
        r@ == api_error_message(status, body@),
{
    let mut m = "Gemini API error (".to_owned();
    m.append(decimal(status as u64).as_str());
    m.append("): ");
    m.append(decode_lossy(body).as_str());
    m
}

}
