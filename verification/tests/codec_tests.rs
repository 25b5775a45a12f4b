use quizgen::carry::load_carry_forward;
use quizgen::codec::{decode_pairs, decode_questions, encode_pairs, DecodeError};
use quizgen::english::EnglishQuizError;
use quizgen::mcq::{Choice, Mcq};
use quizgen::text::{folded_eq_exec, trim};
use quizgen::webster::{
    clean_markup, definitions_from_entries, examples_from_entries, synonyms_from_entries,
    CollegiateDefSection, CollegiateEntry, CollegiateMeta, DtElement, SenseOrSkip, ThesaurusEntry,
    ThesaurusMeta, Vis,
};
use quizgen::words_api::Details;
use quizgen::{GradeReport, Question, Section};

fn strings(items: &[&str]) -> Vec<String> {
    items.iter().map(|s| s.to_string()).collect()
}

fn sample_pairs() -> Vec<(Choice, Option<Choice>)> {
    vec![
        (Choice::A, Some(Choice::A)),
        (Choice::B, Some(Choice::C)),
        (Choice::D, None),
    ]
}

#[test]
fn pairs_round_trip_through_their_byte_form() {
    let pairs = sample_pairs();
    let bytes = encode_pairs(&pairs);
    assert_eq!(decode_pairs(&bytes), Ok(pairs));
}

#[test]
fn empty_pairs_round_trip() {
    let pairs: Vec<(Choice, Option<Choice>)> = vec![];
    let bytes = encode_pairs(&pairs);
    assert_eq!(decode_pairs(&bytes), Ok(pairs));
}

#[test]
fn report_bytes_reload_into_the_identical_pair_list() {
    let report = GradeReport::new(5, 9, sample_pairs());
    let bytes = report.to_bytes();
    assert_eq!(decode_pairs(&bytes), Ok(sample_pairs()));
}

#[test]
fn truncated_pair_bytes_are_an_unexpected_end() {
    let pairs = sample_pairs();
    let mut bytes = encode_pairs(&pairs);
    bytes.truncate(bytes.len() - 1);
    assert_eq!(decode_pairs(&bytes), Err(DecodeError::UnexpectedEnd));
    assert_eq!(decode_pairs(&vec![1, 2, 3]), Err(DecodeError::UnexpectedEnd));
}

#[test]
fn corrupt_pair_bytes_are_malformed() {
    let pairs = sample_pairs();
    let mut bytes = encode_pairs(&pairs);
    let last = bytes.len() - 1;
    bytes[last] = 9;
    assert_eq!(decode_pairs(&bytes), Err(DecodeError::Malformed));
    let mut trailing = encode_pairs(&sample_pairs());
    trailing.push(0);
    assert_eq!(decode_pairs(&trailing), Err(DecodeError::Malformed));
}

fn sample_questions() -> Vec<Mcq> {
    vec![
        Mcq::new(
            "the cat sat".to_string(),
            strings(&["cat", "feline", "kitty", "tom"]),
            Choice::A,
        ),
        Mcq::new(
            "h\u{e9}llo w\u{f6}rld".to_string(),
            strings(&["big", "small", "wide", "thin"]),
            Choice::C,
        ),
    ]
}

#[test]
fn questions_round_trip_through_their_byte_form() {
    let questions = sample_questions();
    let section = Section::new(questions);
    let bytes = section.to_bytes();
    let decoded = decode_questions(&bytes).expect("the encoder's output decodes");
    let originals = sample_questions();
    assert_eq!(decoded.len(), originals.len());
    for (d, o) in decoded.iter().zip(originals.iter()) {
        assert_eq!(d.statement(), o.statement());
        assert_eq!(d.choices(), o.choices());
        assert_eq!(d.answer(), o.answer());
    }
}

#[test]
fn truncated_question_bytes_are_an_unexpected_end() {
    let section = Section::new(sample_questions());
    let mut bytes = section.to_bytes();
    bytes.truncate(bytes.len() / 2);
    assert_eq!(
        decode_questions(&bytes).unwrap_err(),
        DecodeError::UnexpectedEnd
    );
}

#[test]
fn corrupt_question_bytes_are_malformed() {
    let section = Section::new(sample_questions());
    let mut bytes = section.to_bytes();
    let last = bytes.len() - 1;
    bytes[last] = 200;
    assert_eq!(decode_questions(&bytes).unwrap_err(), DecodeError::Malformed);
}

#[test]
fn carry_forward_keeps_only_incorrectly_answered_questions() {
    let questions = sample_questions();
    let section = Section::new(questions);
    let qbytes = section.to_bytes();
    // First question answered incorrectly, second never answered.
    let report = GradeReport::new(
        0,
        0,
        vec![(Choice::A, Some(Choice::B)), (Choice::C, None)],
    );
    let pbytes = report.to_bytes();
    let seed = load_carry_forward(&qbytes, &pbytes, 4, 1, 1).expect("prior session loads");
    assert_eq!(seed.len(), 1);
    assert_eq!(seed[0].statement(), &"the cat sat".to_string());
}

#[test]
fn carry_forward_ratio_truncates_the_seed() {
    let questions = sample_questions();
    let section = Section::new(questions);
    let qbytes = section.to_bytes();
    let report = GradeReport::new(
        0,
        0,
        vec![(Choice::A, Some(Choice::B)), (Choice::C, Some(Choice::D))],
    );
    let pbytes = report.to_bytes();
    // Both questions were missed, but a quarter of a four-question run is one.
    let seed = load_carry_forward(&qbytes, &pbytes, 4, 1, 4).expect("prior session loads");
    assert_eq!(seed.len(), 1);
}

#[test]
fn carry_forward_treats_truncation_as_no_prior_session() {
    let empty: Vec<u8> = vec![];
    let seed = load_carry_forward(&empty, &empty, 4, 1, 2).expect("a fresh start");
    assert_eq!(seed.len(), 0);
}

#[test]
fn carry_forward_treats_corrupt_state_as_fatal() {
    let section = Section::new(sample_questions());
    let mut qbytes = section.to_bytes();
    let last = qbytes.len() - 1;
    qbytes[last] = 200;
    let report = GradeReport::new(0, 0, vec![(Choice::A, None), (Choice::C, None)]);
    let pbytes = report.to_bytes();
    match load_carry_forward(&qbytes, &pbytes, 4, 1, 2) {
        Err(EnglishQuizError::FileError(_)) => {},
        other => panic!("expected a FileError, got {:?}", other),
    }
}

#[test]
fn carry_forward_rejects_lists_whose_lengths_disagree() {
    let section = Section::new(sample_questions());
    let qbytes = section.to_bytes();
    let report = GradeReport::new(0, 0, vec![(Choice::A, Some(Choice::B))]);
    let pbytes = report.to_bytes();
    match load_carry_forward(&qbytes, &pbytes, 4, 1, 2) {
        Err(EnglishQuizError::FileError(_)) => {},
        other => panic!("expected a FileError, got {:?}", other),
    }
}

#[test]
fn trimming_removes_surrounding_whitespace_only() {
    assert_eq!(trim("  hi there\t\n"), "hi there".to_string());
    assert_eq!(trim(""), "".to_string());
    assert_eq!(trim("   "), "".to_string());
    assert_eq!(trim("word"), "word".to_string());
}

#[test]
fn folding_ignores_case_and_surrounding_whitespace() {
    assert!(folded_eq_exec(" CAT ", "cat"));
    assert!(folded_eq_exec("Cat", "cAt"));
    assert!(!folded_eq_exec("cats", "cat"));
}

#[test]
fn markup_cleaning_strips_brace_tokens_and_trims() {
    assert_eq!(
        clean_markup("{bc}a small animal {sx|cat||}"),
        Some("a small animal".to_string())
    );
    assert_eq!(clean_markup("{bc}{sx|cat||}"), None);
    assert_eq!(clean_markup("   "), None);
    assert_eq!(clean_markup("plain"), Some("plain".to_string()));
}

fn dictionary_entry() -> CollegiateEntry {
    CollegiateEntry {
        meta: CollegiateMeta { id: "cat".to_string() },
        def: vec![CollegiateDefSection {
            sseq: vec![
                vec![
                    SenseOrSkip::Sense {
                        dt: vec![
                            DtElement::Text("{bc}a small domestic mammal".to_string()),
                            DtElement::Vis(vec![Vis { t: "the {it}cat{/it} purred".to_string() }]),
                        ],
                    },
                    SenseOrSkip::Skip,
                ],
                vec![SenseOrSkip::Sense {
                    dt: vec![DtElement::Text("{bc}".to_string())],
                }],
            ],
        }],
        shortdef: vec![],
    }
}

#[test]
fn dictionary_definitions_come_from_cleaned_sense_texts() {
    let resp = definitions_from_entries(vec![dictionary_entry()]).expect("one entry");
    assert_eq!(resp.word, "cat".to_string());
    let texts: Vec<String> = resp.definitions.iter().map(|d| d.definition.clone()).collect();
    assert_eq!(texts, strings(&["a small domestic mammal"]));
}

#[test]
fn dictionary_short_definitions_win_when_present() {
    let mut entry = dictionary_entry();
    entry.shortdef = strings(&["a cat, shortly"]);
    let resp = definitions_from_entries(vec![entry]).expect("one entry");
    let texts: Vec<String> = resp.definitions.iter().map(|d| d.definition.clone()).collect();
    assert_eq!(texts, strings(&["a cat, shortly"]));
}

#[test]
fn dictionary_examples_come_from_cleaned_illustrations() {
    let resp = examples_from_entries(vec![dictionary_entry()]).expect("one entry");
    assert_eq!(resp.word, "cat".to_string());
    assert_eq!(resp.examples, strings(&["the cat purred"]));
}

#[test]
fn empty_dictionary_responses_extract_nothing() {
    assert!(definitions_from_entries(vec![]).is_none());
    assert!(examples_from_entries(vec![]).is_none());
    assert!(synonyms_from_entries(vec![]).is_none());
}

#[test]
fn thesaurus_synonym_groups_flatten_in_order() {
    let entry = ThesaurusEntry {
        meta: ThesaurusMeta {
            id: "cat".to_string(),
            syns: vec![strings(&["feline", "kitty"]), strings(&["tom"])],
            ants: vec![strings(&["dog"])],
        },
    };
    let resp = synonyms_from_entries(vec![entry.clone()]).expect("one entry");
    assert_eq!(resp.word, "cat".to_string());
    assert_eq!(resp.synonyms, strings(&["feline", "kitty", "tom"]));
    let ants = quizgen::webster::antonyms_from_entries(vec![entry]).expect("one entry");
    assert_eq!(ants.antonyms, strings(&["dog"]));
}

#[test]
fn quiz_kinds_cover_the_four_attributes() {
    let kinds = [
        Details::Definitions,
        Details::Synonyms,
        Details::Antonyms,
        Details::Examples,
    ];
    assert_eq!(kinds.len(), 4);
    assert_eq!(kinds[1], Details::Synonyms);
}
