use docq::generation::{prompt_budget, prompt_start, truncation_warning};

#[test]
fn budget_reserves_answer_tokens() {
    assert_eq!(prompt_budget(4096, 512), 3584);
    assert_eq!(prompt_budget(512, 512), 1);
    assert_eq!(prompt_budget(100, 4096), 1);
}

#[test]
fn long_prompts_lose_their_beginning() {
    assert_eq!(prompt_start(5000, 3584), 1416);
    assert_eq!(prompt_start(10, 3584), 0);
    assert_eq!(prompt_start(3584, 3584), 0);
}

#[test]
fn truncation_warning_text() {
    assert_eq!(
        truncation_warning(5000, 3584).as_deref(),
        Some("[docq] warning: prompt is 5000 tokens but context budget is 3584; truncating from the beginning")
    );
    assert!(truncation_warning(10, 3584).is_none());
}
