use sentence_puzzle::evaluate::{evaluate_sentences, Evaluation, PuzzleError};
use sentence_puzzle::levels::Level;
use sentence_puzzle::sentence::{Sentence, SentenceDescription};
use sentence_puzzle::value::Value;

fn one(sentence: Sentence, values: Vec<Value>) -> SentenceDescription {
    SentenceDescription { sentence, values }
}

fn puzzle() -> Level {
    Level {
        sentences: vec![
            one(Sentence::ThereAreNumberOfBoolSentences, vec![Value::Number(2), Value::Bool(true)]),
            one(Sentence::IdSentenceIsBool, vec![Value::Id(1), Value::Bool(false)]),
            one(Sentence::IdSentenceAndIdSentenceAreDifferent, vec![Value::Id(1), Value::Id(2)]),
        ],
    }
}

#[test]
fn a_consistent_marking_passes() {
    let evaluation = evaluate_sentences(&puzzle(), &vec![true, false, true]).unwrap();
    assert_eq!(evaluation, Evaluation { consistent: vec![true, true, true], pass: true });
}

#[test]
fn an_inconsistent_marking_fails_with_the_sentences_at_fault() {
    let evaluation = evaluate_sentences(&puzzle(), &vec![true, true, true]).unwrap();
    assert_eq!(evaluation, Evaluation { consistent: vec![false, false, false], pass: false });
    let evaluation = evaluate_sentences(&puzzle(), &vec![false, false, false]).unwrap();
    assert_eq!(evaluation, Evaluation { consistent: vec![true, false, true], pass: false });
    let evaluation = evaluate_sentences(&puzzle(), &vec![true, false, false]).unwrap();
    assert_eq!(evaluation, Evaluation { consistent: vec![false, true, false], pass: false });
}

#[test]
fn a_puzzle_may_have_more_than_one_solution() {
    let level = Level {
        sentences: vec![
            one(Sentence::IdSentenceAndIdSentenceAreTheSame, vec![Value::Id(2), Value::Id(3)]),
            one(Sentence::IdSentenceIsBool, vec![Value::Id(2), Value::Bool(true)]),
            one(Sentence::IdSentenceIsBool, vec![Value::Id(3), Value::Bool(true)]),
        ],
    };
    assert!(evaluate_sentences(&level, &vec![true, true, true]).unwrap().pass);
    assert!(evaluate_sentences(&level, &vec![true, false, false]).unwrap().pass);
    assert!(!evaluate_sentences(&level, &vec![false, false, false]).unwrap().pass);
}

#[test]
fn positions_differ_evaluation_scenario() {
    let level = Level {
        sentences: vec![
            one(Sentence::IdSentenceAndIdSentenceAreDifferent, vec![Value::Id(1), Value::Id(3)]),
            one(Sentence::ThereAreNumberOfAlternatingGroups, vec![Value::Number(3)]),
            one(Sentence::ThereAreNumberOfAlternatingGroups, vec![Value::Number(3)]),
        ],
    };
    for middle in [true, false] {
        let guess = vec![true, middle, false];
        assert_eq!(level.sentences[0].claims(0, &guess), Ok(true));
        let evaluation = evaluate_sentences(&level, &guess).unwrap();
        assert!(evaluation.consistent[0]);
    }
}

#[test]
fn each_form_is_read_against_the_marking() {
    let guess = vec![true, false, false, true];
    let cases = vec![
        (one(Sentence::IdSentenceIsBool, vec![Value::Id(4), Value::Bool(true)]), true),
        (one(Sentence::IdSentenceIsBool, vec![Value::Id(2), Value::Bool(true)]), false),
        (one(Sentence::ThereAreNumberOfBoolSentences, vec![Value::Number(2), Value::Bool(false)]), true),
        (one(Sentence::ThereAreNumberOfBoolSentences, vec![Value::Number(3), Value::Bool(true)]), false),
        (one(Sentence::ThereAreNumberOfBoolSentences, vec![Value::Number(0), Value::Bool(true)]), false),
        (one(Sentence::ClosestBoolIsNumberAway, vec![Value::Bool(false), Value::Number(1)]), true),
        (one(Sentence::ClosestBoolIsNumberAway, vec![Value::Bool(true), Value::Number(3)]), true),
        (one(Sentence::ClosestBoolIsNumberAway, vec![Value::Bool(true), Value::Number(1)]), false),
        (one(Sentence::ClosestBoolIsNumberAway, vec![Value::Bool(false), Value::Number(2)]), false),
        (one(Sentence::ClosestBoolIsNumberAway, vec![Value::Bool(true), Value::Number(9)]), false),
        (one(Sentence::ThereAreNumberOfAlternatingGroups, vec![Value::Number(3)]), true),
        (one(Sentence::ThereAreNumberOfAlternatingGroups, vec![Value::Number(4)]), false),
        (one(Sentence::IdSentenceAndIdSentenceAreTheSame, vec![Value::Id(1), Value::Id(4)]), true),
        (one(Sentence::IdSentenceAndIdSentenceAreTheSame, vec![Value::Id(1), Value::Id(2)]), false),
        (one(Sentence::IdSentenceAndIdSentenceAreTheSame, vec![Value::Id(3), Value::Id(3)]), true),
        (one(Sentence::IdSentenceAndIdSentenceAreDifferent, vec![Value::Id(3), Value::Id(4)]), true),
        (one(Sentence::IdSentenceAndIdSentenceAreDifferent, vec![Value::Id(2), Value::Id(3)]), false),
    ];
    for (sentence, claim) in cases.iter() {
        assert_eq!(sentence.claims(0, &guess), Ok(*claim), "{:?}", sentence);
    }
}

#[test]
fn the_closest_truth_value_is_sought_from_the_sentences_own_position() {
    let guess = vec![true, false, false, false, true];
    let sentence = one(Sentence::ClosestBoolIsNumberAway, vec![Value::Bool(true), Value::Number(2)]);
    assert_eq!(sentence.claims(0, &guess), Ok(false));
    assert_eq!(sentence.claims(1, &guess), Ok(false));
    assert_eq!(sentence.claims(2, &guess), Ok(true));
    assert_eq!(sentence.claims(3, &guess), Ok(false));
    assert_eq!(sentence.claims(4, &guess), Ok(false));
}

#[test]
fn judging_twice_gives_the_same_and_changes_nothing() {
    let level = puzzle();
    let guess = vec![false, true, true];
    let first = evaluate_sentences(&level, &guess);
    let second = evaluate_sentences(&level, &guess);
    assert_eq!(first, second);
    assert_eq!(level, puzzle());
    assert_eq!(guess, vec![false, true, true]);
    let short = vec![true];
    assert_eq!(evaluate_sentences(&level, &short), evaluate_sentences(&level, &short));
}

#[test]
fn a_marking_of_another_length_is_rejected() {
    assert_eq!(
        evaluate_sentences(&puzzle(), &vec![true, false]),
        Err(PuzzleError::GuessLength { sentences: 3, marks: 2 })
    );
    assert_eq!(
        evaluate_sentences(&puzzle(), &vec![true, false, true, true]),
        Err(PuzzleError::GuessLength { sentences: 3, marks: 4 })
    );
    assert_eq!(
        evaluate_sentences(&puzzle(), &Vec::new()),
        Err(PuzzleError::GuessLength { sentences: 3, marks: 0 })
    );
}

#[test]
fn a_position_out_of_range_is_rejected() {
    let mut level = puzzle();
    level.sentences[1].values[0] = Value::Id(4);
    assert_eq!(
        evaluate_sentences(&level, &vec![true, false, true]),
        Err(PuzzleError::IdOutOfRange { position: 2 })
    );
    level.sentences[1].values[0] = Value::Id(0);
    assert_eq!(
        evaluate_sentences(&level, &vec![true, false, true]),
        Err(PuzzleError::IdOutOfRange { position: 2 })
    );
    level.sentences[1].values[0] = Value::Id(3);
    level.sentences[2].values[1] = Value::Id(u32::MAX);
    assert_eq!(
        evaluate_sentences(&level, &vec![true, false, true]),
        Err(PuzzleError::IdOutOfRange { position: 3 })
    );
}

#[test]
fn values_that_do_not_fit_the_form_are_rejected() {
    let guess = vec![true, false, true];
    let mut level = puzzle();
    level.sentences[0].values = vec![Value::Bool(true), Value::Number(2)];
    assert_eq!(
        evaluate_sentences(&level, &guess),
        Err(PuzzleError::WrongValues { position: 1 })
    );
    let mut level = puzzle();
    level.sentences[2].values = vec![Value::Id(1)];
    assert_eq!(
        evaluate_sentences(&level, &guess),
        Err(PuzzleError::WrongValues { position: 3 })
    );
    let mut level = puzzle();
    level.sentences[1].values = vec![Value::Id(1), Value::Bool(false), Value::Bool(false)];
    assert_eq!(
        evaluate_sentences(&level, &guess),
        Err(PuzzleError::WrongValues { position: 2 })
    );
    let mut level = puzzle();
    level.sentences[1] = one(Sentence::ThereAreNumberOfAlternatingGroups, Vec::new());
    assert_eq!(
        evaluate_sentences(&level, &guess),
        Err(PuzzleError::WrongValues { position: 2 })
    );
    let mut level = puzzle();
    level.sentences[1] = one(Sentence::ThereAreNumberOfAlternatingGroups, vec![Value::Id(1)]);
    assert_eq!(
        evaluate_sentences(&level, &guess),
        Err(PuzzleError::WrongValues { position: 2 })
    );
}

#[test]
fn the_first_sentence_at_fault_is_named() {
    let guess = vec![true, false, true];
    let mut level = puzzle();
    level.sentences[1].values[0] = Value::Id(9);
    level.sentences[2].values = vec![Value::Bool(true)];
    assert_eq!(
        evaluate_sentences(&level, &guess),
        Err(PuzzleError::IdOutOfRange { position: 2 })
    );
    level.sentences[0].values = Vec::new();
    assert_eq!(
        evaluate_sentences(&level, &guess),
        Err(PuzzleError::WrongValues { position: 1 })
    );
    assert_eq!(
        evaluate_sentences(&level, &vec![true]),
        Err(PuzzleError::GuessLength { sentences: 3, marks: 1 })
    );
}

#[test]
fn a_sentence_alone_tells_what_is_wrong_with_it() {
    let truths = vec![true, false];
    assert_eq!(
        one(Sentence::IdSentenceIsBool, vec![Value::Id(3), Value::Bool(true)]).claims(1, &truths),
        Err(PuzzleError::IdOutOfRange { position: 2 })
    );
    assert_eq!(
        one(Sentence::IdSentenceAndIdSentenceAreTheSame, vec![Value::Id(2), Value::Id(0)])
            .claims(0, &truths),
        Err(PuzzleError::IdOutOfRange { position: 1 })
    );
    assert_eq!(
        one(Sentence::ClosestBoolIsNumberAway, vec![Value::Number(1), Value::Bool(true)])
            .claims(0, &truths),
        Err(PuzzleError::WrongValues { position: 1 })
    );
}

#[test]
fn any_number_is_read_as_it_stands() {
    let guess = vec![true, true, true];
    let level = Level {
        sentences: vec![
            one(Sentence::ThereAreNumberOfBoolSentences, vec![Value::Number(0), Value::Bool(false)]),
            one(Sentence::ThereAreNumberOfAlternatingGroups, vec![Value::Number(u32::MAX)]),
            one(Sentence::ClosestBoolIsNumberAway, vec![Value::Bool(true), Value::Number(7)]),
        ],
    };
    assert_eq!(
        evaluate_sentences(&level, &guess),
        Ok(Evaluation { consistent: vec![true, false, false], pass: false })
    );
}

#[test]
fn an_empty_puzzle_passes_with_the_empty_marking() {
    let level = Level { sentences: Vec::new() };
    assert_eq!(
        evaluate_sentences(&level, &Vec::new()),
        Ok(Evaluation { consistent: Vec::new(), pass: true })
    );
}
