use antigravity_sdk_rust::direct::{
    build_request, decimal, error_text, parse_response, request_contents, request_path, response_text,
    system_instruction_text, ChatEntry, ResponseError,
};
use antigravity_sdk_rust::types::{
    AppendedSystemInstructions, CustomSystemInstructions, SystemInstructionSection, SystemInstructions,
};

#[test]
fn custom_instructions_are_kept() {
    let si = SystemInstructions::Custom(CustomSystemInstructions { text: "Be brief.".to_string() });
    assert_eq!(system_instruction_text(&si), "Be brief.");
}

#[test]
fn appended_instructions_are_laid_out() {
    let si = SystemInstructions::Appended(AppendedSystemInstructions {
        custom_identity: Some("You are Ada.".to_string()),
        appended_sections: vec![
            SystemInstructionSection { title: "Style".to_string(), content: "Short.".to_string() },
            SystemInstructionSection { title: "Tools".to_string(), content: "Few.".to_string() },
        ],
    });
    assert_eq!(system_instruction_text(&si), "You are Ada.\n## Style\nShort.\n\n## Tools\nFew.\n\n");
    let si = SystemInstructions::Appended(AppendedSystemInstructions { custom_identity: None, appended_sections: vec![] });
    assert_eq!(system_instruction_text(&si), "");
}

#[test]
fn request_targets_the_model() {
    assert_eq!(request_path("gemini-3.5-flash"), "/v1beta/models/gemini-3.5-flash:generateContent");
    let r = build_request("m1", "key-1", b"{}".to_vec());
    assert_eq!(r.url, "https://generativelanguage.googleapis.com/v1beta/models/m1:generateContent");
    assert_eq!(r.scheme, "https");
    assert_eq!(r.authority, "generativelanguage.googleapis.com");
    assert_eq!(r.path, "/v1beta/models/m1:generateContent");
    assert_eq!(
        r.headers,
        vec![
            ("content-type".to_string(), b"application/json".to_vec()),
            ("x-goog-api-key".to_string(), b"key-1".to_vec())
        ]
    );
    assert_eq!(r.body, b"{}".to_vec());
}

#[test]
fn contents_end_with_the_user_message() {
    let history = vec![
        ChatEntry { role: "user".to_string(), content: "hi".to_string() },
        ChatEntry { role: "model".to_string(), content: "hello".to_string() },
    ];
    let c = request_contents(&history, "how are you?");
    assert_eq!(c.len(), 3);
    assert_eq!(c[1].role, "model");
    assert_eq!(c[2].role, "user");
    assert_eq!(c[2].content, "how are you?");
}

#[test]
fn response_text_is_extracted() {
    let body = br#"{"candidates":[{"content":{"parts":[{"text":"Hello!"},{"text":"x"}]}}]}"#;
    assert_eq!(parse_response(body).unwrap(), "Hello!");
    let v: serde_json::Value = serde_json::from_slice(body).unwrap();
    assert_eq!(response_text(&v), Some("Hello!".to_string()));
}

#[test]
fn missing_text_is_an_error_quoting_the_body() {
    let body = br#"{"candidates":[]}"#;
    match parse_response(body) {
        Err(ResponseError::UnexpectedStructure(m)) => {
            assert_eq!(m, "Unexpected Gemini response structure: {\"candidates\":[]}")
        }
        other => panic!("unexpected {:?}", other),
    }
    let long = format!("{{\"x\":\"{}\"}}", "a".repeat(600));
    match parse_response(long.as_bytes()) {
        Err(ResponseError::UnexpectedStructure(m)) => {
            assert_eq!(m.len(), "Unexpected Gemini response structure: ".len() + 500)
        }
        other => panic!("unexpected {:?}", other),
    }
}

#[test]
fn invalid_json_is_an_error() {
    assert!(matches!(parse_response(b"not json"), Err(ResponseError::Json(_))));
}

#[test]
fn api_error_text() {
    assert_eq!(error_text(429, b"slow down"), "Gemini API error (429): slow down");
    assert_eq!(error_text(0, b""), "Gemini API error (0): ");
    assert_eq!(decimal(65535), "65535");
    assert_eq!(decimal(7), "7");
    assert_eq!(error_text(500, &[0xff, b'a']), "Gemini API error (500): \u{fffd}a");
}

#[test]
fn client_model_falls_back_to_the_default() {
    let mut config = antigravity_sdk_rust::types::GeminiConfig::default();
    assert_eq!(antigravity_sdk_rust::direct::client_model(&config), "gemini-3.5-flash");
    config.models.default.name = String::new();
    assert_eq!(antigravity_sdk_rust::direct::client_model(&config), "gemini-3.5-flash");
    config.models.default.name = "gemini-2.5-pro".to_string();
    assert_eq!(antigravity_sdk_rust::direct::client_model(&config), "gemini-2.5-pro");
}
