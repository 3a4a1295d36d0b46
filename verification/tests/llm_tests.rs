use gitcommitgenerator::config::ReasoningEffort;
use gitcommitgenerator::json::{parse_json, JsonMember, JsonValue};
use gitcommitgenerator::llm::{
    chat_user_content, commit_message_from_reply, is_empty_llm_response_error, join_url,
    next_chat_step, parse_commit_message, parse_commit_message_response, parse_header,
    parse_headers, response_preview, should_retry_without_effort, ChatAttempt, ChatReply,
    ChatStep, LlmError,
};

fn text(s: &str) -> JsonValue {
    JsonValue::Text(s.to_string())
}

fn object(members: Vec<(&str, JsonValue)>) -> JsonValue {
    JsonValue::Object(
        members
            .into_iter()
            .map(|(key, value)| JsonMember { key: key.to_string(), value })
            .collect(),
    )
}

fn reply(status: u16, body: &str) -> ChatReply {
    ChatReply {
        status,
        content_type: Some("application/json".to_string()),
        body: body.to_string(),
    }
}

#[test]
fn parses_openai_compatible_chat_response() {
    let body = r#"{
        "choices": [{"message": {"content": "Add configurable commit generation"}}]
    }"#;

    assert_eq!(parse_commit_message(body).unwrap(), "Add configurable commit generation");
}

#[test]
fn missing_chat_message_content_is_empty_commit_message() {
    let body = r#"{
        "choices": [
            {
                "finish_reason": "stop",
                "index": 0,
                "message": {"role": "assistant"}
            }
        ]
    }"#;

    let error = parse_commit_message_response(
        body,
        "http://127.0.0.1:3002/v1/chat/completions",
        200,
        Some("application/json; charset=utf-8"),
    )
    .unwrap_err()
    .message();

    assert_eq!(error, "LLM returned an empty commit message");
}

#[test]
fn parse_error_includes_response_context_and_hint() {
    let error = parse_commit_message_response(
        "<!doctype html><title>New API</title>",
        "http://127.0.0.1:3002/chat/completions",
        200,
        Some("text/html; charset=utf-8"),
    )
    .unwrap_err()
    .message();

    assert!(error.contains("URL: http://127.0.0.1:3002/chat/completions"));
    assert!(error.contains("Content-Type: text/html; charset=utf-8"));
    assert!(error.contains("<!doctype html>"));
    assert!(error.contains("/v1/chat/completions"));
}

#[test]
fn effort_rejection_retries_once_without_reasoning_effort() {
    let url = join_url("http://127.0.0.1:1234", "/v1/chat/completions");
    let first = ChatAttempt::first(Some(ReasoningEffort::Max));
    let rejected = reply(400, r#"{"error":{"message":"reasoning_effort is not supported"}}"#);
    let second = match next_chat_step(first, &url, &rejected) {
        ChatStep::Retry(next) => next,
        other => panic!("expected a retry, got {other:?}"),
    };
    assert_eq!(second.effort, None);
    assert!(second.used_effort_fallback);
    assert_eq!(
        chat_user_content("prompt", "diff").unwrap(),
        "prompt\n\nGit diff:\ndiff"
    );
    let accepted = reply(200, r#"{"choices":[{"message":{"content":"fix: retry without effort"}}]}"#);
    assert_eq!(
        next_chat_step(second, &url, &accepted),
        ChatStep::Done("fix: retry without effort".to_string())
    );
    let rejected_again = next_chat_step(second, &url, &rejected);
    assert!(matches!(rejected_again, ChatStep::Fail(LlmError::RequestFailed { status: 400, .. })));
}

#[test]
fn generic_bad_request_does_not_trigger_effort_fallback() {
    assert!(!should_retry_without_effort(400, r#"{"error":{"message":"invalid max_tokens"}}"#));
}

#[test]
fn unprocessable_effort_error_triggers_fallback() {
    assert!(should_retry_without_effort(422, r#"{"error":{"message":"effort is invalid for this model"}}"#));
}

#[test]
fn join_url_deduplicates_openai_style_suffixes() {
    assert_eq!(
        join_url("http://127.0.0.1:3002/v1", "/v1/chat/completions"),
        "http://127.0.0.1:3002/v1/chat/completions"
    );
}

#[test]
fn join_url_handles_roots_slashes_and_covered_endpoints() {
    assert_eq!(join_url("http://host:3002/", "/v1/chat/completions"), "http://host:3002/v1/chat/completions");
    assert_eq!(join_url("http://host/v1/chat/completions", "/v1/chat/completions"), "http://host/v1/chat/completions");
    assert_eq!(join_url("http://host/api//", "//"), "http://host/api");
    assert_eq!(join_url("http://host/a/v1", "v1/x"), "http://host/a/v1/x");
    assert_eq!(join_url("http://host/v2", "/v1/chat"), "http://host/v2/v1/chat");
}

#[test]
fn effort_fallback_needs_a_bad_request_that_names_effort() {
    assert!(should_retry_without_effort(400, "Reasoning_Effort: UNSUPPORTED value"));
    assert!(!should_retry_without_effort(500, "effort is not supported"));
    assert!(!should_retry_without_effort(400, "effort rejected"));
    assert!(!should_retry_without_effort(422, "unknown parameter"));
}

#[test]
fn replies_are_read_from_parsed_values() {
    let value = object(vec![(
        "choices",
        JsonValue::Array(vec![
            object(vec![("message", object(vec![("content", text("  ```feat: add x```  "))]))]),
            object(vec![("message", object(vec![("content", JsonValue::Null)]))]),
        ]),
    )]);
    assert_eq!(commit_message_from_reply(Ok(value), "body", "u", 200, None), Ok("feat: add x".to_string()));

    let array_form = JsonValue::Array(vec![JsonValue::Array(vec![JsonValue::Array(vec![
        JsonValue::Array(vec![text("docs: array form")]),
    ])])]);
    assert_eq!(
        commit_message_from_reply(Ok(array_form), "body", "u", 200, None),
        Ok("docs: array form".to_string())
    );

    let no_choices = object(vec![("choices", JsonValue::Array(vec![]))]);
    let error = commit_message_from_reply(Ok(no_choices), "body", "u", 200, None).unwrap_err();
    assert_eq!(error, LlmError::NoChoices);
    assert_eq!(error.message(), "LLM response did not contain any choices");
}

#[test]
fn malformed_replies_name_the_decoding_error() {
    let missing = object(vec![("id", text("x"))]);
    let error = commit_message_from_reply(Ok(missing), "{\"id\":\"x\"}", "http://h/v1", 200, Some("application/json"))
        .unwrap_err();
    assert_eq!(
        error.message(),
        "failed to parse LLM response as an OpenAI-compatible chat completion\nURL: http://h/v1\nStatus: 200\nContent-Type: application/json\nParse error: missing field `choices`\nBody preview:\n{\"id\":\"x\"}\nHint: verify --base-url and --endpoint. For New API/OpenAI-compatible gateways, the endpoint is commonly /v1/chat/completions."
    );

    let bad_choice = object(vec![("choices", JsonValue::Array(vec![object(vec![])]))]);
    match commit_message_from_reply(Ok(bad_choice), "", "u", 200, None).unwrap_err() {
        LlmError::Unparsable { detail, preview, content_type, .. } => {
            assert_eq!(detail, "missing field `message`");
            assert_eq!(preview, "<empty body>");
            assert_eq!(content_type, None);
        }
        other => panic!("unexpected error {other:?}"),
    }

    let wrong_content = object(vec![(
        "choices",
        JsonValue::Array(vec![object(vec![("message", object(vec![("content", JsonValue::Bool(true))]))])]),
    )]);
    match commit_message_from_reply(Ok(wrong_content), "b", "u", 200, None).unwrap_err() {
        LlmError::Unparsable { detail, .. } => {
            assert_eq!(detail, "invalid type: boolean `true`, expected a string");
        }
        other => panic!("unexpected error {other:?}"),
    }

    let parser_error = commit_message_from_reply(Err("expected value".to_string()), "b", "u", 503, None).unwrap_err();
    assert!(parser_error.message().contains("Status: 503\nContent-Type: <missing>\nParse error: expected value\n"));
}

#[test]
fn json_text_is_parsed_into_values() {
    match parse_json(r#"{"a": [1, "x", null, true]}"#).unwrap() {
        JsonValue::Object(members) => {
            assert_eq!(members.len(), 1);
            assert_eq!(members[0].key, "a");
            match &members[0].value {
                JsonValue::Array(items) => {
                    assert_eq!(items.len(), 4);
                    assert!(matches!(&items[0], JsonValue::Integer(n) if n == "1"));
                    assert!(matches!(&items[1], JsonValue::Text(s) if s == "x"));
                    assert!(matches!(&items[2], JsonValue::Null));
                    assert!(matches!(&items[3], JsonValue::Bool(true)));
                }
                other => panic!("unexpected value {other:?}"),
            }
        }
        other => panic!("unexpected value {other:?}"),
    }
    assert!(parse_json("<html>").is_err());
}

#[test]
fn empty_replies_are_retried_twice() {
    let empty = reply(200, r#"{"choices":[{"message":{"content":"  ``  "}}]}"#);
    let a0 = ChatAttempt::first(None);
    let a1 = match next_chat_step(a0, "u", &empty) {
        ChatStep::Retry(a) => a,
        other => panic!("unexpected step {other:?}"),
    };
    assert_eq!(a1.empty_response_attempts, 1);
    let a2 = match next_chat_step(a1, "u", &empty) {
        ChatStep::Retry(a) => a,
        other => panic!("unexpected step {other:?}"),
    };
    assert_eq!(a2.empty_response_attempts, 2);
    let last = next_chat_step(a2, "u", &empty);
    assert_eq!(last, ChatStep::Fail(LlmError::EmptyMessage));
    assert!(is_empty_llm_response_error(&LlmError::EmptyMessage));
    assert!(!is_empty_llm_response_error(&LlmError::NoChoices));
}

#[test]
fn failed_requests_show_status_text_and_preview() {
    let step = next_chat_step(ChatAttempt::first(None), "http://h/v1/chat/completions", &reply(500, "  oops  "));
    match step {
        ChatStep::Fail(error) => assert_eq!(
            error.message(),
            "LLM API request failed\nURL: http://h/v1/chat/completions\nStatus: 500 Internal Server Error\nContent-Type: application/json\nBody preview:\noops"
        ),
        other => panic!("unexpected step {other:?}"),
    }
}

#[test]
fn previews_are_trimmed_and_cut() {
    assert_eq!(response_preview("   "), "<empty body>");
    assert_eq!(response_preview(" short \n"), "short");
    let long = "é".repeat(601);
    let preview = response_preview(&long);
    assert_eq!(preview, format!("{}\n...<truncated>", "é".repeat(600)));
    assert_eq!(response_preview(&"a".repeat(600)), "a".repeat(600));
}

#[test]
fn oversized_requests_are_refused_locally() {
    let diff = "x".repeat(10_485_760);
    let error = chat_user_content("p", &diff).unwrap_err();
    assert_eq!(error, LlmError::TooLarge { chars: 10_485_773 });
    assert_eq!(
        error.message(),
        "LLM request is too large after diff summarization: 10485773 chars; limit is 10485760. Reduce prompt size or max_input_chars."
    );
}

#[test]
fn headers_split_at_the_first_colon() {
    assert_eq!(
        parse_header(" X-Custom : a:b ").unwrap(),
        ("X-Custom".to_string(), "a:b".to_string())
    );
    let error = parse_header("NoColon").unwrap_err();
    assert_eq!(error.message(), "invalid header \"NoColon\"; expected 'Name: value'");
    assert_eq!(
        parse_headers(&vec!["A: 1".to_string(), "B:2".to_string()]).unwrap(),
        vec![("A".to_string(), "1".to_string()), ("B".to_string(), "2".to_string())]
    );
    assert_eq!(
        parse_headers(&vec!["A: 1".to_string(), "bad".to_string(), "also bad".to_string()]).unwrap_err(),
        LlmError::InvalidHeader { header: "bad".to_string() }
    );
}

#[test]
fn decoding_errors_describe_values_as_serde_does() {
    let numeric = object(vec![("choices", JsonValue::Integer("5".to_string()))]);
    match commit_message_from_reply(Ok(numeric), "b", "u", 200, None).unwrap_err() {
        LlmError::Unparsable { detail, .. } => assert_eq!(detail, "invalid type: integer `5`, expected a sequence"),
        other => panic!("unexpected error {other:?}"),
    }
    let float = object(vec![("choices", JsonValue::Float("1.5".to_string()))]);
    match commit_message_from_reply(Ok(float), "b", "u", 200, None).unwrap_err() {
        LlmError::Unparsable { detail, .. } => assert_eq!(detail, "invalid type: floating point `1.5`, expected a sequence"),
        other => panic!("unexpected error {other:?}"),
    }
    let quoted = text("say \"hi\"");
    match commit_message_from_reply(Ok(quoted), "b", "u", 200, None).unwrap_err() {
        LlmError::Unparsable { detail, .. } => {
            assert_eq!(detail, "invalid type: string \"say \\\"hi\\\"\", expected struct ChatResponse")
        }
        other => panic!("unexpected error {other:?}"),
    }
}

fn decoding_detail(body: &str) -> String {
    match parse_commit_message(body).unwrap_err() {
        LlmError::Unparsable { detail, .. } => detail,
        other => panic!("unexpected error {other:?}"),
    }
}

#[test]
fn element_errors_come_before_trailing_elements() {
    assert_eq!(decoding_detail("[[{}],5]"), "missing field `message`");
    assert_eq!(decoding_detail("[[[]],5]"), "invalid length 0, expected struct ChatChoice with 1 element");
    assert!(decoding_detail("[[],5]").starts_with("trailing characters"));
    assert_eq!(parse_commit_message(r#"[[[["ok"]]]]"#), Ok("ok".to_string()));
}

#[test]
fn floating_point_values_are_described_as_serde_does() {
    assert!(decoding_detail(r#"{"choices": 1e20}"#)
        .starts_with("invalid type: floating point `100000000000000000000.0`, expected a sequence"));
    assert!(decoding_detail(r#"{"choices": 2.5}"#).starts_with("invalid type: floating point `2.5`, expected a sequence"));
    assert!(decoding_detail(r#"{"choices": -3}"#).starts_with("invalid type: integer `-3`, expected a sequence"));
}

#[test]
fn joining_the_request_url_again_changes_nothing() {
    for (base, endpoint) in [
        ("http://127.0.0.1:3002/v1", "/v1/chat/completions"),
        ("http://host", "/v1/chat/completions"),
        ("https://host/api/", "v1/x"),
        ("http://host/v1/chat/completions", "/v1/chat/completions"),
        ("http://host/a", "//"),
    ] {
        let once = join_url(base, endpoint);
        assert_eq!(join_url(&once, endpoint), once);
    }
}
