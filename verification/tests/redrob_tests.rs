use redrob_vectordb::models::{AnswerSource, AskRequest, ChunkRecord};
use redrob_vectordb::redrob::{
    build_context, chat_endpoint, chat_messages, check_content_length, check_status, finish_answer,
    network_failure, number_sources, parse_retry_after, plan_question, Completion, CompletionUsage,
    RedrobError, ResponseBudget, SourceLookup, MAX_CONTEXT_CHARACTERS, MAX_RESPONSE_BYTES,
};

#[test]
fn upstream_errors_are_redacted_and_classified() {
    let error = RedrobError::from_response(401, None);
    assert_eq!(error.code, "authentication_required");
    assert_eq!(error.http_status, 401);
    assert!(!error.message.contains("upstream"));
}

#[test]
fn retry_after_is_preserved_for_rate_limits() {
    let error = RedrobError::from_response(429, Some(30));
    assert_eq!(error.code, "rate_limited");
    assert_eq!(error.retry_after_seconds, Some(30));
}

#[test]
fn every_upstream_status_class_is_mapped() {
    assert_eq!(RedrobError::from_response(403, None).http_status, 401);
    assert_eq!(RedrobError::from_response(402, None).code, "insufficient_balance");
    let unavailable = RedrobError::from_response(502, None);
    assert_eq!((unavailable.code.as_str(), unavailable.http_status), ("service_unavailable", 503));
    let rejected = RedrobError::from_response(404, None);
    assert_eq!((rejected.code.as_str(), rejected.http_status), ("request_rejected", 400));
}

fn request(query: &str, ids: Vec<u64>, max_sources: usize) -> AskRequest {
    AskRequest { query: query.into(), source_ids: ids, max_sources }
}

#[test]
fn questions_are_refused_in_gate_order() {
    let e = plan_question(false, None, &request("", vec![], 6)).unwrap_err();
    assert_eq!((e.code.as_str(), e.http_status), ("privacy_disabled", 403));
    let e = plan_question(true, None, &request("q", vec![], 6)).unwrap_err();
    assert_eq!((e.code.as_str(), e.http_status), ("not_connected", 401));
    let e = plan_question(true, Some("key".into()), &request("   ", vec![], 6)).unwrap_err();
    assert_eq!((e.code.as_str(), e.http_status), ("invalid_request", 400));
    let long = "가".repeat(4001);
    let e = plan_question(true, Some("key".into()), &request(&long, vec![], 6)).unwrap_err();
    assert_eq!(e.code, "invalid_request");
    assert!(plan_question(true, Some("key".into()), &request(&"가".repeat(4000), vec![], 6)).is_ok());
}

#[test]
fn question_plans_search_or_take_the_chosen_sources() {
    let plan = plan_question(true, Some("key".into()), &request("  what?  ", vec![], 0)).unwrap();
    assert_eq!(plan.query, "what?");
    assert_eq!(plan.max_sources, 1);
    match plan.lookup {
        SourceLookup::Search { query, limit } => assert_eq!((query.as_str(), limit), ("what?", 1)),
        SourceLookup::Ids(_) => panic!("expected a search"),
    }
    let plan = plan_question(true, Some("key".into()), &request("q", (1..=20).collect(), 50)).unwrap();
    assert_eq!(plan.max_sources, 10);
    match plan.lookup {
        SourceLookup::Ids(ids) => assert_eq!(ids, (1..=10).collect::<Vec<u64>>()),
        SourceLookup::Search { .. } => panic!("expected ids"),
    }
}

fn passage(id: u64, content: &str) -> ChunkRecord {
    ChunkRecord {
        id,
        document_id: 9,
        chunk_index: 0,
        content: content.into(),
        page: Some(2),
        heading: None,
        path: format!("/docs/{id}.txt"),
        name: format!("{id}.txt"),
        extension: "txt".into(),
        modified_at: String::new(),
    }
}

#[test]
fn no_sources_is_an_error_and_sources_are_numbered_from_one() {
    let e = number_sources(&vec![]).unwrap_err();
    assert_eq!((e.code.as_str(), e.http_status), ("no_sources", 404));
    let sources = number_sources(&vec![passage(5, "five"), passage(8, "eight")]).unwrap();
    let numbers: Vec<(usize, u64)> = sources.iter().map(|s| (s.number, s.chunk_id)).collect();
    assert_eq!(numbers, vec![(1, 5), (2, 8)]);
    assert_eq!(sources[1].excerpt, "eight");
    assert_eq!(sources[0].page, Some(2));
}

fn source(number: usize, excerpt: String) -> AnswerSource {
    AnswerSource { number, chunk_id: number as u64, path: String::new(), name: String::new(), page: None, excerpt }
}

#[test]
fn context_labels_sources_and_separates_them_by_blank_lines() {
    let context = build_context(&vec![source(1, "alpha".into()), source(12, "beta".into())]);
    assert_eq!(context, "[1]\nalpha\n\n[12]\nbeta");
}

#[test]
fn context_excerpts_stay_within_the_character_budget() {
    let big = "x".repeat(MAX_CONTEXT_CHARACTERS - 10);
    let context = build_context(&vec![source(1, big), source(2, "y".repeat(50)), source(3, "zzz".into())]);
    let excerpt_chars = context.chars().filter(|c| *c == 'x' || *c == 'y' || *c == 'z').count();
    assert_eq!(excerpt_chars, MAX_CONTEXT_CHARACTERS);
    assert!(context.ends_with(&format!("[2]\n{}", "y".repeat(10))));
    assert!(!context.contains("[3]"));
}

#[test]
fn request_messages_hold_the_instruction_context_and_question() {
    let messages = chat_messages("[1]\nalpha", "why?");
    assert_eq!(messages.len(), 2);
    assert_eq!(messages[0].role, "system");
    assert!(messages[0].content.starts_with("Answer only from the supplied local sources."));
    assert_eq!(messages[1].role, "user");
    assert_eq!(messages[1].content, "LOCAL SOURCES\n[1]\nalpha\n\nQUESTION\nwhy?");
}

#[test]
fn endpoint_drops_trailing_slashes() {
    assert_eq!(chat_endpoint("https://x.test/v1//"), "https://x.test/v1/chat/completions");
    assert_eq!(chat_endpoint("https://x.test/v1"), "https://x.test/v1/chat/completions");
}

#[test]
fn network_failures_are_classified() {
    assert_eq!(network_failure(true).code, "timeout");
    assert_eq!(network_failure(false).code, "network_error");
    assert_eq!(network_failure(false).http_status, 503);
}

#[test]
fn statuses_and_lengths_are_checked() {
    assert!(check_status(200, None).is_ok());
    assert!(check_status(299, None).is_ok());
    assert_eq!(check_status(429, Some(5)).unwrap_err().retry_after_seconds, Some(5));
    assert!(check_content_length(None).is_ok());
    assert!(check_content_length(Some(MAX_RESPONSE_BYTES as u64)).is_ok());
    assert_eq!(check_content_length(Some(MAX_RESPONSE_BYTES as u64 + 1)).unwrap_err().http_status, 502);
}

#[test]
fn retry_after_parses_like_u64_from_str() {
    assert_eq!(parse_retry_after("30"), Some(30));
    assert_eq!(parse_retry_after("+7"), Some(7));
    assert_eq!(parse_retry_after(""), None);
    assert_eq!(parse_retry_after("+"), None);
    assert_eq!(parse_retry_after("-1"), None);
    assert_eq!(parse_retry_after("1.5"), None);
    assert_eq!(parse_retry_after("18446744073709551615"), Some(u64::MAX));
    assert_eq!(parse_retry_after("18446744073709551616"), None);
    for value in ["0", "42", "007", "+12", "x", " 1", "99999999999999999999"] {
        assert_eq!(parse_retry_after(value), value.parse::<u64>().ok());
    }
}

#[test]
fn response_budget_refuses_the_piece_that_overflows() {
    let mut budget = ResponseBudget::new();
    assert!(budget.accept(MAX_RESPONSE_BYTES - 1).is_ok());
    assert!(budget.accept(2).is_err());
    assert_eq!(budget.received(), MAX_RESPONSE_BYTES - 1);
    assert!(budget.accept(1).is_ok());
    assert_eq!(budget.received(), MAX_RESPONSE_BYTES);
}

#[test]
fn answers_need_a_non_blank_first_choice() {
    let blank = Completion { first_choice: Some("  ".into()), model: None, usage: None };
    let e = finish_answer(blank, "auto".into(), vec![], 5).unwrap_err();
    assert_eq!((e.code.as_str(), e.http_status), ("empty_response", 502));
    let none = Completion { first_choice: None, model: None, usage: None };
    assert!(finish_answer(none, "auto".into(), vec![], 5).is_err());
    let good = Completion {
        first_choice: Some("It is [1].".into()),
        model: None,
        usage: Some(CompletionUsage { prompt_tokens: 10, completion_tokens: 3 }),
    };
    let answer = finish_answer(good, "auto".into(), vec![source(1, "e".into())], 42).unwrap();
    assert_eq!(answer.answer, "It is [1].");
    assert_eq!(answer.model, "auto");
    assert_eq!((answer.input_tokens, answer.output_tokens, answer.latency_ms), (Some(10), Some(3), 42));
    let named = Completion { first_choice: Some("ok".into()), model: Some("m1".into()), usage: None };
    assert_eq!(finish_answer(named, "auto".into(), vec![], 0).unwrap().model, "m1");
}

#[test]
fn evidence_never_carries_file_names_or_paths() {
    let mut private = source(1, "the budget grew".into());
    private.path = "/home/me/secret/plan.pdf".into();
    private.name = "plan.pdf".into();
    let context = build_context(&vec![private.clone()]);
    assert_eq!(context, build_context(&vec![source(1, "the budget grew".into())]));
    assert!(!context.contains("secret") && !context.contains("plan.pdf"));
}
