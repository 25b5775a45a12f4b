use quizgen::english::{error_is_fatal, EnglishQuiz, EnglishQuizError, StatementSource};
use quizgen::mcq::{Choice, Mcq};
use quizgen::provider::{ChainStep, LookupOutcome, ProviderChain};
use quizgen::words_api::{Details, ExampleResponse, SynonymResponse};
use quizgen::{GradeReport, Question, QuizMode, Section};

fn strings(items: &[&str]) -> Vec<String> {
    items.iter().map(|s| s.to_string()).collect()
}

fn synonym_quiz(words: &[&str]) -> EnglishQuiz {
    EnglishQuiz::new(strings(words), Details::Synonyms)
}

fn cat_synonyms(entries: &[&str]) -> SynonymResponse {
    SynonymResponse {
        word: "cat".to_string(),
        synonyms: strings(entries),
    }
}

fn cat_examples(entries: &[&str]) -> StatementSource {
    StatementSource::Examples(ExampleResponse {
        word: "cat".to_string(),
        examples: strings(entries),
    })
}

#[test]
fn pool_normalizes_trims_and_dedups() {
    let quiz = EnglishQuiz::new(strings(&["  dog  ", "", "dog", "cat", "   "]), Details::Synonyms);
    assert_eq!(quiz.available_words(), 2);
}

#[test]
fn pool_without_replacement_yields_each_word_once_then_fails() {
    let mut quiz = synonym_quiz(&["alpha", "beta", "gamma"]);
    assert_eq!(quiz.available_words(), 3);
    let mut seen = Vec::new();
    for _ in 0..3 {
        seen.push(quiz.select_word().expect("a word is available"));
    }
    seen.sort();
    assert_eq!(seen, strings(&["alpha", "beta", "gamma"]));
    assert_eq!(quiz.available_words(), 0);
    assert_eq!(quiz.select_word(), Err(EnglishQuizError::DataError));
}

#[test]
fn generated_question_meets_choice_invariants() {
    let quiz = synonym_quiz(&["cat"]);
    let synonyms = cat_synonyms(&["feline", "kitty", "tom", " CAT "]);
    let source = cat_examples(&["the cat sat on the mat"]);
    let mcq = quiz
        .generate_mcq("cat", &synonyms, &source)
        .expect("three usable synonyms remain");
    let choices = mcq.choices().clone();
    assert_eq!(choices.len(), 4);
    let mut sorted = choices.clone();
    sorted.sort();
    assert_eq!(sorted, strings(&["cat", "feline", "kitty", "tom"]));
    let matching: Vec<&String> = choices
        .iter()
        .filter(|c| c.trim().to_lowercase() == "cat")
        .collect();
    assert_eq!(matching.len(), 1);
    assert_eq!(choices[mcq.answer().index()], "cat".to_string());
    for i in 0..4 {
        for j in 0..4 {
            if i != j {
                assert_ne!(choices[i], choices[j]);
            }
        }
    }
    assert_eq!(mcq.statement(), &"the cat sat on the mat".to_string());
}

#[test]
fn too_few_usable_synonyms_is_a_data_error() {
    let quiz = synonym_quiz(&["cat"]);
    let synonyms = cat_synonyms(&["feline", "kitty"]);
    let source = cat_examples(&["the cat sat"]);
    assert_eq!(
        quiz.generate_mcq("cat", &synonyms, &source).unwrap_err(),
        EnglishQuizError::DataError
    );
}

#[test]
fn duplicate_synonyms_count_once_for_the_shortfall_check() {
    let quiz = synonym_quiz(&["cat"]);
    let synonyms = cat_synonyms(&["feline", "feline", "kitty", "kitty"]);
    let source = cat_examples(&["the cat sat"]);
    assert_eq!(
        quiz.generate_mcq("cat", &synonyms, &source).unwrap_err(),
        EnglishQuizError::DataError
    );
}

#[test]
fn empty_example_list_is_a_data_error() {
    let quiz = synonym_quiz(&["cat"]);
    let synonyms = cat_synonyms(&["feline", "kitty", "tom"]);
    let source = cat_examples(&[]);
    assert_eq!(
        quiz.generate_mcq("cat", &synonyms, &source).unwrap_err(),
        EnglishQuizError::DataError
    );
}

#[test]
fn cross_provider_word_mismatch_is_a_data_error() {
    let quiz = synonym_quiz(&["cat"]);
    let synonyms = cat_synonyms(&["feline", "kitty", "tom"]);
    let source = StatementSource::Examples(ExampleResponse {
        word: "cats".to_string(),
        examples: strings(&["the cat sat"]),
    });
    assert_eq!(
        quiz.generate_mcq("cat", &synonyms, &source).unwrap_err(),
        EnglishQuizError::DataError
    );
}

#[test]
fn masking_hides_the_first_occurrence_of_the_answer() {
    let mcq = Mcq::new(
        "the cat sat on the cat mat".to_string(),
        strings(&["cat", "feline", "kitty", "tom"]),
        Choice::A,
    );
    assert_eq!(mcq.ask(), "the [.....] sat on the cat mat\n".to_string());
}

#[test]
fn masking_leaves_a_statement_without_the_answer_alone() {
    let mcq = Mcq::new(
        "a quiet afternoon".to_string(),
        strings(&["cat", "feline", "kitty", "tom"]),
        Choice::B,
    );
    assert_eq!(mcq.ask(), "a quiet afternoon\n".to_string());
}

#[test]
fn submissions_parse_case_insensitively_with_whitespace() {
    assert_eq!(Choice::from_str(" a "), Some(Choice::A));
    assert_eq!(Choice::from_str("B"), Some(Choice::B));
    assert_eq!(Choice::from_str("c"), Some(Choice::C));
    assert_eq!(Choice::from_str("d\n"), Some(Choice::D));
    assert_eq!(Choice::from_str("x"), None);
    assert_eq!(Choice::from_str("AB"), None);
    assert_eq!(Choice::from_str(""), None);
}

#[test]
fn choice_ordinals_round_trip() {
    assert_eq!(Choice::try_from(0), Some(Choice::A));
    assert_eq!(Choice::try_from(3), Some(Choice::D));
    assert_eq!(Choice::try_from(4), None);
    assert_eq!(Choice::A.index(), 0);
    assert_eq!(Choice::D.index(), 3);
    assert_eq!(Choice::B.letter(), "B".to_string());
}

fn two_question_section() -> Section<Mcq> {
    let q1 = Mcq::new(
        "first statement".to_string(),
        strings(&["w", "x", "y", "z"]),
        Choice::B,
    );
    let q2 = Mcq::new(
        "second statement".to_string(),
        strings(&["p", "q", "r", "s"]),
        Choice::D,
    );
    Section::new(vec![q1, q2])
}

#[test]
fn grading_pairs_expected_with_submissions_and_pads_missing_ones() {
    let section = two_question_section();
    let report = section.start_quiz(QuizMode::Batch, vec![Some(Choice::B)], 100, 350);
    assert_eq!(
        report.pairs(),
        &vec![(Choice::B, Some(Choice::B)), (Choice::D, None)]
    );
    assert_eq!(report.start_ms(), 100);
    assert_eq!(report.end_ms(), 350);
    assert_eq!(report.elapsed_ms(), 250);
}

#[test]
fn attempt_records_invalid_submissions_as_no_answer() {
    let section = two_question_section();
    let parsed = section.questions()[0].attempt("not a choice");
    assert_eq!(parsed, None);
    let parsed = section.questions()[0].attempt(" b ");
    assert_eq!(parsed, Some(Choice::B));
}

#[test]
fn score_is_all_points_when_every_submission_matches() {
    let report = GradeReport::new(
        0,
        0,
        vec![
            (Choice::A, Some(Choice::A)),
            (Choice::C, Some(Choice::C)),
            (Choice::D, Some(Choice::D)),
        ],
    );
    assert_eq!(report.calculate_score(), 1000);
    assert_eq!(report.calculate_score() as f64 / 10.0, 100.0);
}

#[test]
fn score_is_zero_when_no_submissions_are_present() {
    let report = GradeReport::new(0, 0, vec![(Choice::A, None), (Choice::B, None)]);
    assert_eq!(report.calculate_score(), 0);
    assert_eq!(report.calculate_score() as f64 / 10.0, 0.0);
}

#[test]
fn score_of_an_empty_session_is_zero() {
    let report: GradeReport<Choice> = GradeReport::new(0, 0, vec![]);
    assert_eq!(report.calculate_score(), 0);
    assert_eq!(report.calculate_score() as f64 / 10.0, 0.0);
}

#[test]
fn score_rounds_down_to_tenths_of_a_percent() {
    let report = GradeReport::new(
        0,
        0,
        vec![
            (Choice::A, Some(Choice::A)),
            (Choice::B, Some(Choice::C)),
            (Choice::C, None),
        ],
    );
    // 1 of 3 correct: 33.3%.
    assert_eq!(report.calculate_score(), 333);
}

#[test]
fn chain_resolves_to_the_first_success() {
    let chain = ProviderChain::new(3);
    let outcomes: Vec<LookupOutcome<u32>> = vec![
        LookupOutcome::Failure("first down".to_string()),
        LookupOutcome::Success(7),
        LookupOutcome::Success(9),
    ];
    assert_eq!(chain.resolve(outcomes), Ok(7));
}

#[test]
fn chain_failure_of_every_provider_is_an_api_error_with_the_last_failure() {
    let chain = ProviderChain::new(2);
    let outcomes: Vec<LookupOutcome<u32>> = vec![
        LookupOutcome::Failure("first down".to_string()),
        LookupOutcome::Failure("second down".to_string()),
    ];
    match chain.resolve(outcomes) {
        Err(EnglishQuizError::ApiError(msg)) => assert_eq!(msg, "second down".to_string()),
        other => panic!("expected an ApiError, got {:?}", other),
    }
}

#[test]
fn chain_steps_try_each_provider_in_order() {
    let chain = ProviderChain::new(2);
    match chain.step::<u32>(0, LookupOutcome::Failure("down".to_string())) {
        ChainStep::TryNext(i) => assert_eq!(i, 1),
        _ => panic!("expected TryNext"),
    }
    match chain.step::<u32>(1, LookupOutcome::Failure("down".to_string())) {
        ChainStep::Exhausted(msg) => assert_eq!(msg, "down".to_string()),
        _ => panic!("expected Exhausted"),
    }
    match chain.step::<u32>(0, LookupOutcome::Success(4)) {
        ChainStep::Resolved(v) => assert_eq!(v, 4),
        _ => panic!("expected Resolved"),
    }
}

#[test]
fn pool_distractor_question_meets_choice_invariants() {
    let mut quiz = EnglishQuiz::new(
        strings(&["wolf", "bear", "lynx", "hare"]),
        Details::Antonyms,
    );
    let values = strings(&["tame", "mild", "gentle"]);
    let mcq = quiz
        .generate_pool_mcq("zebra", &values)
        .expect("pool holds three usable distractors");
    assert_eq!(mcq.statement(), &"tame, mild, gentle".to_string());
    let choices = mcq.choices().clone();
    assert_eq!(choices.len(), 4);
    assert_eq!(choices[mcq.answer().index()], "zebra".to_string());
    let pool = ["wolf", "bear", "lynx", "hare"];
    for (i, c) in choices.iter().enumerate() {
        if i != mcq.answer().index() {
            assert!(pool.contains(&c.as_str()));
        }
    }
    assert_eq!(quiz.available_words(), 1);
}

#[test]
fn pool_distractor_statement_picks_one_value_for_a_definition_quiz() {
    let mut quiz = EnglishQuiz::new(
        strings(&["wolf", "bear", "lynx"]),
        Details::Definitions,
    );
    let values = strings(&["a striped animal"]);
    let mcq = quiz.generate_pool_mcq("zebra", &values).expect("enough data");
    assert_eq!(mcq.statement(), &"a striped animal".to_string());
}

#[test]
fn pool_distractor_shortfalls_are_data_errors() {
    let mut quiz = EnglishQuiz::new(strings(&["wolf", "bear"]), Details::Synonyms);
    // Too few values for a joined statement.
    assert_eq!(
        quiz.generate_pool_mcq("zebra", &strings(&["tame", "mild"])).unwrap_err(),
        EnglishQuizError::DataError
    );
    // Enough values, but the pool cannot supply three distractors.
    assert_eq!(
        quiz
            .generate_pool_mcq("zebra", &strings(&["tame", "mild", "gentle"]))
            .unwrap_err(),
        EnglishQuizError::DataError
    );
}

#[test]
fn pool_distractors_skip_words_matching_the_target() {
    let mut quiz = EnglishQuiz::new(
        strings(&["wolf", " ZEBRA ", "bear", "lynx"]),
        Details::Synonyms,
    );
    let values = strings(&["tame", "mild", "gentle"]);
    let mcq = quiz
        .generate_pool_mcq("zebra", &values)
        .expect("three non-target words remain");
    let choices = mcq.choices().clone();
    let matching: Vec<&String> = choices
        .iter()
        .filter(|c| c.trim().to_lowercase() == "zebra")
        .collect();
    assert_eq!(matching.len(), 1);
}

#[test]
fn only_data_errors_are_recoverable() {
    assert!(!error_is_fatal(&EnglishQuizError::DataError));
    assert!(error_is_fatal(&EnglishQuizError::ApiError("down".to_string())));
    assert!(error_is_fatal(&EnglishQuizError::FileError("gone".to_string())));
}

#[test]
fn an_empty_chain_cannot_resolve_anything() {
    let chain = ProviderChain::new(0);
    let outcomes: Vec<LookupOutcome<u32>> = vec![];
    match chain.resolve(outcomes) {
        Err(EnglishQuizError::ApiError(_)) => {},
        other => panic!("expected an ApiError, got {:?}", other),
    }
}
