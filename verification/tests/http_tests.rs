use promptfuzz::request::http::{check_header_fields, program_of_choices, HeaderProblem};
use promptfuzz::request::http::{retry_failure, retry_start, RetryFailure};
use promptfuzz::request::http::{read_unparsed_response, ResponseReading};
use promptfuzz::request::http::Headers;
use promptfuzz::request::http::{
    bearer_authorization, chat_completions_url, convert_chat_message, next_retry_step,
    strip_code_prefix, strip_code_wrapper, total_token_usage, validate_openai_request,
    AttemptOutcome, ChatMessage, HttpClientConfig, MessageContent, OpenAIMessageBuilder,
    OpenAIUsage, RequestError, RetryStep, TokenUsage,
};
use promptfuzz::request::http::{classify_unparsed_response, fallback_response_fields, UnparsedResponse};
use std::time::Duration;

#[test]
fn test_openai_request_validation() {
    // a valid request
    let valid_messages = vec![OpenAIMessageBuilder::user("Hello")];
    assert!(validate_openai_request("gpt-3.5-turbo", &valid_messages).is_ok());

    // an invalid request (empty model)
    let invalid_messages = vec![OpenAIMessageBuilder::user("Hello")];
    assert!(validate_openai_request("", &invalid_messages).is_err());
}

#[test]
fn test_message_builder() {
    let system_msg = OpenAIMessageBuilder::system("You are a helpful assistant.");
    assert_eq!(system_msg.role, "system");
    assert_eq!(system_msg.content, "You are a helpful assistant.");

    let user_msg = OpenAIMessageBuilder::user("Hello");
    assert_eq!(user_msg.role, "user");
    assert_eq!(user_msg.content, "Hello");

    let assistant_msg = OpenAIMessageBuilder::assistant("Hi there!");
    assert_eq!(assistant_msg.role, "assistant");
    assert_eq!(assistant_msg.content, "Hi there!");

    let named_msg = OpenAIMessageBuilder::with_name(user_msg, "TestUser");
    assert_eq!(named_msg.name, Some("TestUser".to_string()));
}

#[test]
fn validation_errors_in_order() {
    let msgs = vec![OpenAIMessageBuilder::user("Hi")];
    assert!(matches!(validate_openai_request("", &msgs), Err(RequestError::EmptyModel)));
    assert!(matches!(validate_openai_request("m", &[]), Err(RequestError::EmptyMessages)));
    let mut bad = OpenAIMessageBuilder::user("Hi");
    bad.role = "tool".to_string();
    let msgs = vec![OpenAIMessageBuilder::system("s"), bad, OpenAIMessageBuilder::user("")];
    match validate_openai_request("m", &msgs) {
        Err(RequestError::InvalidRole { role }) => assert_eq!(role, "tool"),
        _ => panic!("expected an invalid role"),
    }
    let msgs = vec![OpenAIMessageBuilder::assistant("a"), OpenAIMessageBuilder::user("")];
    assert!(matches!(validate_openai_request("m", &msgs), Err(RequestError::EmptyContent)));
}

#[test]
fn token_usage_arithmetic() {
    let usage = OpenAIUsage {
        prompt_tokens: 10,
        completion_tokens: 5,
        total_tokens: 15,
        cache_creation_input_tokens: 7,
        cache_read_input_tokens: 9,
    };
    let mut t = TokenUsage::from_openai_usage(&usage);
    assert_eq!((t.prompt_tokens, t.completion_tokens, t.total_tokens), (10, 5, 15));
    t.add(&TokenUsage::new(1, 2, 3));
    assert_eq!((t.prompt_tokens, t.completion_tokens, t.total_tokens), (11, 7, 18));
    let d = TokenUsage::default();
    assert_eq!((d.prompt_tokens, d.completion_tokens, d.total_tokens), (0, 0, 0));
    let total = total_token_usage(&vec![TokenUsage::new(1, 2, 3), TokenUsage::new(10, 20, 30)]);
    assert_eq!((total.prompt_tokens, total.completion_tokens, total.total_tokens), (11, 22, 33));
    let none = total_token_usage(&Vec::new());
    assert_eq!(none.total_tokens, 0);
}

#[test]
fn convert_messages() {
    let m = convert_chat_message(&ChatMessage::System(MessageContent::Text("sys".to_string())));
    assert_eq!((m.role.as_str(), m.content.as_str()), ("system", "sys"));
    assert!(m.name.is_none());
    let m = convert_chat_message(&ChatMessage::User(MessageContent::Parts));
    assert_eq!((m.role.as_str(), m.content.as_str()), ("user", "User message with array content"));
    let m = convert_chat_message(&ChatMessage::Assistant(None));
    assert_eq!((m.role.as_str(), m.content.as_str()), ("assistant", ""));
    let m = convert_chat_message(&ChatMessage::Assistant(Some(MessageContent::Parts)));
    assert_eq!(m.content, "Assistant message with array content");
    let m = convert_chat_message(&ChatMessage::Tool(MessageContent::Parts));
    assert_eq!((m.role.as_str(), m.content.as_str()), ("tool", "Tool message with array content"));
    let m = convert_chat_message(&ChatMessage::Function(Some("f".to_string())));
    assert_eq!((m.role.as_str(), m.content.as_str()), ("function", "f"));
    let m = convert_chat_message(&ChatMessage::Function(None));
    assert_eq!(m.content, "");
    let m = convert_chat_message(&ChatMessage::Developer(MessageContent::Parts));
    assert_eq!(
        (m.role.as_str(), m.content.as_str()),
        ("developer", "Developer message with array content")
    );
    let m = convert_chat_message(&ChatMessage::System(MessageContent::Parts));
    assert_eq!(m.content, "System message with array content");
}

#[test]
fn strip_code_from_answer() {
    assert_eq!(
        strip_code_wrapper("  Here it is:\n```cpp\nint main() {}\n```\nDone.  "),
        "/*Here it is:\n*/\n\nint main() {}\n"
    );
    assert_eq!(strip_code_wrapper("int x;"), "/**/\nint x;");
    assert_eq!(strip_code_wrapper("```c\nint y;\n```"), "/**/\n\nint y;\n");
    assert_eq!(strip_code_wrapper("```C++\nz\n```"), "/**/\n\nz\n");
    assert_eq!(strip_code_prefix("```cpp\nx", "cpp"), "\nx");
    assert_eq!(strip_code_prefix("```c\nx", "cpp"), "```c\nx");
}

#[test]
fn retry_steps() {
    assert_eq!(next_retry_step(0, 3, AttemptOutcome::Succeeded), RetryStep::Return);
    assert_eq!(next_retry_step(0, 3, AttemptOutcome::Failed), RetryStep::WaitAndRetry);
    assert_eq!(next_retry_step(1, 3, AttemptOutcome::TimedOut), RetryStep::WaitAndRetry);
    assert_eq!(next_retry_step(2, 3, AttemptOutcome::Failed), RetryStep::GiveUp);
    assert_eq!(next_retry_step(2, 3, AttemptOutcome::Succeeded), RetryStep::Return);
}

#[test]
fn config_defaults_and_setters() {
    let mut c = HttpClientConfig::default();
    assert_eq!(c.base_url, "https://api.openai.com");
    assert_eq!(c.timeout, Duration::from_secs(180));
    assert_eq!(c.connect_timeout, Duration::from_secs(10));
    assert_eq!(c.retry_attempts, 3);
    assert_eq!(c.retry_delay, Duration::from_secs(2));
    assert_eq!(c.default_headers.to_entries().len(), 2);
    assert_eq!(c.default_headers.get("Content-Type").unwrap(), "application/json");
    assert_eq!(c.default_headers.get("User-Agent").unwrap(), "PromptFuzz-HTTP-Client/1.0");
    c.set_base_url("http://localhost:8000/v1");
    assert_eq!(c.base_url, "http://localhost:8000/v1");
    c.set_timeout(Duration::from_secs(5));
    assert_eq!(c.timeout, Duration::from_secs(5));
    c.set_api_key("sk-1");
    assert_eq!(c.default_headers.get("Authorization").unwrap(), "Bearer sk-1");
}

#[test]
fn urls_and_tokens() {
    assert_eq!(chat_completions_url("https://api.openai.com/v1"), "https://api.openai.com/v1/chat/completions");
    assert_eq!(bearer_authorization("abc"), "Bearer abc");
}

#[test]
fn unparsed_response_decisions() {
    assert_eq!(
        classify_unparsed_response(true, Some("quota"), true),
        UnparsedResponse::ApiError { message: "quota".to_string() }
    );
    assert_eq!(
        classify_unparsed_response(true, None, false),
        UnparsedResponse::ApiError { message: "Unknown error".to_string() }
    );
    assert_eq!(classify_unparsed_response(false, None, true), UnparsedResponse::FromFields);
    assert_eq!(classify_unparsed_response(false, Some("x"), false), UnparsedResponse::Unexpected);
    let f = fallback_response_fields(None, None, None, None);
    assert_eq!((f.id.as_str(), f.object.as_str(), f.created, f.model.as_str()), ("", "chat.completion", 0, ""));
    let f = fallback_response_fields(Some("id1"), Some("obj"), Some(7), Some("m"));
    assert_eq!((f.id.as_str(), f.object.as_str(), f.created, f.model.as_str()), ("id1", "obj", 7, "m"));
}

#[test]
fn retry_start_and_failure() {
    assert!(retry_start(0) == RetryStep::Exhausted);
    assert!(retry_start(3) == RetryStep::Attempt);
    match retry_failure(Vec::<String>::new(), 0) {
        RetryFailure::Exhausted(n) => assert_eq!(n, 0),
        RetryFailure::LastError(_) => panic!("no attempt was made"),
    }
    match retry_failure(vec!["first".to_string(), "timeout".to_string()], 2) {
        RetryFailure::LastError(e) => assert_eq!(e, "timeout"),
        RetryFailure::Exhausted(_) => panic!("attempts were made"),
    }
}

#[test]
fn unparsed_response_readings() {
    assert!(matches!(read_unparsed_response("not json"), ResponseReading::NotJson));
    match read_unparsed_response(r#"{"error": {"message": "quota"}}"#) {
        ResponseReading::ApiError { message } => assert_eq!(message, "quota"),
        _ => panic!("an error body"),
    }
    match read_unparsed_response(r#"{"error": {}}"#) {
        ResponseReading::ApiError { message } => assert_eq!(message, "Unknown error"),
        _ => panic!("an error body"),
    }
    match read_unparsed_response(r#"{"choices": [], "id": "x1", "created": 5}"#) {
        ResponseReading::FromFields(f) => {
            assert_eq!(f.id, "x1");
            assert_eq!(f.object, "chat.completion");
            assert_eq!(f.created, 5);
            assert_eq!(f.model, "");
        }
        _ => panic!("a body with choices"),
    }
    assert!(matches!(read_unparsed_response(r#"{"other": 1}"#), ResponseReading::Unexpected));
}

#[test]
fn headers_replace_values() {
    let mut h = Headers::new();
    h.insert("A".to_string(), "1".to_string());
    h.insert("B".to_string(), "2".to_string());
    h.insert("A".to_string(), "3".to_string());
    assert_eq!(h.get("A"), Some("3"));
    assert_eq!(h.get("B"), Some("2"));
    assert_eq!(h.get("C"), None);
    assert_eq!(h.to_entries().len(), 2);
}

#[test]
fn program_from_first_choice() {
    assert_eq!(program_of_choices(&vec![]), None);
    let choices = vec!["```c\nint main(){}\n```".to_string(), "other".to_string()];
    assert_eq!(program_of_choices(&choices), Some(strip_code_wrapper(&choices[0])));
}

#[test]
fn header_fields_checked_in_order() {
    let good = vec![("Content-Type".to_string(), "application/json".to_string())];
    assert!(check_header_fields(&good).is_ok());
    let bad_name = vec![
        ("X-A".to_string(), "1".to_string()),
        ("bad name".to_string(), "2".to_string()),
        ("X-B".to_string(), "\n".to_string()),
    ];
    match check_header_fields(&bad_name) {
        Err(HeaderProblem::InvalidName(n)) => assert_eq!(n, "bad name"),
        _ => panic!("the second name is invalid"),
    }
    let bad_value = vec![("X-B".to_string(), "a\nb".to_string())];
    match check_header_fields(&bad_value) {
        Err(HeaderProblem::InvalidValue(v)) => assert_eq!(v, "a\nb"),
        _ => panic!("the value is invalid"),
    }
    assert!(check_header_fields(&vec![("X-T".to_string(), "a\tb".to_string())]).is_ok());
}
