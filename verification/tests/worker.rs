use sheet_translate::worker::{
    conclude, prepare_request, request_for, select_candidate, CompletionRequest, Failure,
    ServiceReply, TranslationOutcome, MODEL, PROMPT_LIMIT,
};

fn choices(texts: &[&str]) -> ServiceReply {
    ServiceReply::Choices(texts.iter().map(|t| t.to_string()).collect())
}

#[test]
fn model_is_named() {
    assert_eq!(MODEL, "text-davinci-003");
}

#[test]
fn single_candidate_is_selected() {
    assert_eq!(select_candidate(choices(&["salut"])), Ok("salut".to_string()));
}

#[test]
fn last_of_several_candidates_is_selected() {
    assert_eq!(select_candidate(choices(&["unu", "doi", "trei"])), Ok("trei".to_string()));
}

#[test]
fn reply_without_candidate_is_its_own_failure() {
    assert_eq!(select_candidate(choices(&[])), Err(Failure::NoCandidate));
}

#[test]
fn error_reply_carries_the_message() {
    assert_eq!(
        select_candidate(ServiceReply::Error("rate limited".to_string())),
        Err(Failure::Service("rate limited".to_string()))
    );
}

#[test]
fn conclude_keeps_the_key() {
    assert_eq!(
        conclude("hello".to_string(), Ok(choices(&["buna", "salut"]))),
        TranslationOutcome::Translated { key: "hello".to_string(), text: "salut".to_string() }
    );
    assert_eq!(
        conclude("hello".to_string(), Ok(choices(&[]))),
        TranslationOutcome::Failed { key: "hello".to_string(), reason: Failure::NoCandidate }
    );
    assert_eq!(
        conclude("hello".to_string(), Ok(ServiceReply::Error("rate limited".to_string()))),
        TranslationOutcome::Failed {
            key: "hello".to_string(),
            reason: Failure::Service("rate limited".to_string())
        }
    );
}

#[test]
fn transport_failure_is_told_apart() {
    assert_eq!(
        conclude("hello".to_string(), Err("connection reset".to_string())),
        TranslationOutcome::Failed {
            key: "hello".to_string(),
            reason: Failure::Transport("connection reset".to_string())
        }
    );
}

#[test]
fn failure_words() {
    assert_eq!(Failure::NoCandidate.message(), "No choice received");
    assert_eq!(Failure::Service("a".to_string()).message(), "a");
    assert_eq!(Failure::Transport("b".to_string()).message(), "b");
    assert_eq!(Failure::Budget("c".to_string()).message(), "c");
}

#[test]
fn request_takes_the_budget() {
    assert_eq!(
        request_for("a prompt".to_string(), Ok(123)),
        Ok(CompletionRequest {
            model: "text-davinci-003".to_string(),
            prompt: "a prompt".to_string(),
            max_tokens: 123
        })
    );
}

#[test]
fn request_fails_without_a_budget() {
    assert_eq!(
        request_for("a prompt".to_string(), Err("no tokenizer".to_string())),
        Err(Failure::Budget("no tokenizer".to_string()))
    );
}

#[test]
fn empty_prompt_leaves_the_whole_context() {
    let request = prepare_request(String::new()).unwrap();
    assert_eq!(request.model, "text-davinci-003");
    assert_eq!(request.prompt, "");
    assert_eq!(request.max_tokens, 4097);
}

#[test]
fn prompt_tokens_are_taken_off_the_budget() {
    let request = prepare_request("hello world".to_string()).unwrap();
    assert_eq!(request.prompt, "hello world");
    assert_eq!(request.max_tokens, 4095);
}

#[test]
fn longer_prompt_leaves_less() {
    let short = prepare_request("Translate this into Romanian:\nHello\n\nRomanian:\n".to_string())
        .unwrap();
    let long = prepare_request(
        "Translate this into Romanian:\nHello, how are you today my dear friend?\n\nRomanian:\n"
            .to_string(),
    )
    .unwrap();
    assert!(long.max_tokens < short.max_tokens);
    assert!(short.max_tokens < 4097);
}

#[test]
fn prompt_limit_is_half_a_million_characters() {
    assert_eq!(PROMPT_LIMIT, 500_000);
}

#[test]
fn prompt_at_the_limit_gets_no_budget() {
    let prompt = "a".repeat(PROMPT_LIMIT);
    assert_eq!(prepare_request(prompt), Err(Failure::Budget("Prompt too long".to_string())));
}

#[test]
fn prompt_limit_counts_characters_not_bytes() {
    let at_limit = "\u{e9}".repeat(PROMPT_LIMIT);
    assert_eq!(at_limit.len(), 2 * PROMPT_LIMIT);
    assert_eq!(prepare_request(at_limit), Err(Failure::Budget("Prompt too long".to_string())));
    let mut below = "hello ".repeat(40_000);
    below.push_str(&"\u{e9} ".repeat(30_000));
    assert!(below.len() > 300_000);
    assert!(prepare_request(below).is_ok());
}

#[test]
fn white_space_run_of_a_million_is_refused() {
    let mut prompt = String::from("a");
    prompt.push_str(&" ".repeat(1_000_000));
    prompt.push('b');
    assert_eq!(prepare_request(prompt), Err(Failure::Budget("Prompt too long".to_string())));
}

#[test]
fn long_prompt_below_the_limit_leaves_no_tokens() {
    let mut prompt = "hello ".repeat(83_333);
    prompt.push('a');
    assert_eq!(prompt.chars().count(), PROMPT_LIMIT - 1);
    let request = prepare_request(prompt.clone()).unwrap();
    assert_eq!(request.prompt, prompt);
    assert_eq!(request.max_tokens, 0);
}

#[test]
fn white_space_run_inside_a_prompt_is_counted() {
    let mut prompt = String::from("a");
    prompt.push_str(&" ".repeat(3_000));
    prompt.push('b');
    let request = prepare_request(prompt).unwrap();
    assert!(request.max_tokens < 4097);
}
