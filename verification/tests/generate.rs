use rand::rngs::StdRng;
use rand::SeedableRng;
use sentence_puzzle::evaluate::evaluate_sentences;
use sentence_puzzle::generate::{
    generate_level, generate_sentences, generate_truths, matching_positions, sentence_count,
};
use sentence_puzzle::levels::Level;
use sentence_puzzle::sentence::{Sentence, SentenceDescription};
use sentence_puzzle::value::Value;

fn description(sentence: Sentence, values: Vec<Value>) -> SentenceDescription {
    SentenceDescription { sentence, values }
}

fn rows() -> Vec<Vec<bool>> {
    vec![
        vec![true, false, true],
        vec![true, true, true],
        vec![false, false, false],
        vec![false, true, true, false],
        vec![true, false, false, true, true],
        vec![true, true, false, true, false, false],
        vec![false, false, false, false, false, true],
        vec![true, false],
    ]
}

#[test]
fn id_sentence_is_bool_names_another_position() {
    let truths = vec![true, false, true];
    assert_eq!(
        SentenceDescription::id_sentence_is_bool(true, 0, &truths, 0),
        description(Sentence::IdSentenceIsBool, vec![Value::Id(2), Value::Bool(false)])
    );
    assert_eq!(
        SentenceDescription::id_sentence_is_bool(true, 0, &truths, 1),
        description(Sentence::IdSentenceIsBool, vec![Value::Id(3), Value::Bool(true)])
    );
    assert_eq!(
        SentenceDescription::id_sentence_is_bool(false, 1, &truths, 1),
        description(Sentence::IdSentenceIsBool, vec![Value::Id(3), Value::Bool(false)])
    );
    assert_eq!(
        SentenceDescription::id_sentence_is_bool(false, 2, &truths, 4),
        description(Sentence::IdSentenceIsBool, vec![Value::Id(1), Value::Bool(false)])
    );
}

#[test]
fn id_sentence_is_bool_alone_says_this_is_true() {
    assert_eq!(
        SentenceDescription::id_sentence_is_bool(true, 0, &vec![true], 9),
        description(Sentence::IdSentenceIsBool, vec![Value::Id(1), Value::Bool(true)])
    );
    assert_eq!(
        SentenceDescription::id_sentence_is_bool(false, 0, &vec![false], 9),
        description(Sentence::IdSentenceIsBool, vec![Value::Id(1), Value::Bool(true)])
    );
}

#[test]
fn count_of_bool_scenario() {
    let truths = vec![true, false, true];
    let made = SentenceDescription::there_are_number_of_bool_sentences(true, &truths, true, 77);
    assert_eq!(
        made,
        description(
            Sentence::ThereAreNumberOfBoolSentences,
            vec![Value::Number(2), Value::Bool(true)]
        )
    );
    let level = Level {
        sentences: vec![
            made,
            description(Sentence::IdSentenceIsBool, vec![Value::Id(1), Value::Bool(false)]),
            description(Sentence::ThereAreNumberOfAlternatingGroups, vec![Value::Number(3)]),
        ],
    };
    let evaluation = evaluate_sentences(&level, &truths).unwrap();
    assert!(evaluation.consistent[0]);
    assert_eq!(made_claim(&level, 0, &truths), true);
}

fn made_claim(level: &Level, position: usize, truths: &Vec<bool>) -> bool {
    level.sentences[position].claims(position, truths).unwrap()
}

#[test]
fn a_false_count_is_another_number() {
    let truths = vec![true, false, true];
    assert_eq!(
        SentenceDescription::there_are_number_of_bool_sentences(false, &truths, true, 0),
        description(
            Sentence::ThereAreNumberOfBoolSentences,
            vec![Value::Number(1), Value::Bool(true)]
        )
    );
    assert_eq!(
        SentenceDescription::there_are_number_of_bool_sentences(false, &truths, true, 1),
        description(
            Sentence::ThereAreNumberOfBoolSentences,
            vec![Value::Number(3), Value::Bool(true)]
        )
    );
    assert_eq!(
        SentenceDescription::there_are_number_of_bool_sentences(false, &truths, false, 0),
        description(
            Sentence::ThereAreNumberOfBoolSentences,
            vec![Value::Number(2), Value::Bool(false)]
        )
    );
}

#[test]
fn a_true_count_of_an_absent_truth_value_is_nothing() {
    let truths = vec![true, true, true];
    assert_eq!(
        SentenceDescription::there_are_number_of_bool_sentences(true, &truths, false, 5),
        description(
            Sentence::ThereAreNumberOfBoolSentences,
            vec![Value::Number(0), Value::Bool(false)]
        )
    );
    assert_eq!(
        SentenceDescription::there_are_number_of_bool_sentences(false, &truths, false, 0),
        description(
            Sentence::ThereAreNumberOfBoolSentences,
            vec![Value::Number(2), Value::Bool(false)]
        )
    );
    assert_eq!(
        SentenceDescription::there_are_number_of_bool_sentences(false, &truths, false, 1),
        description(
            Sentence::ThereAreNumberOfBoolSentences,
            vec![Value::Number(3), Value::Bool(false)]
        )
    );
}

#[test]
fn closest_bool_gives_the_true_distance() {
    let truths = vec![true, false, false, true];
    assert_eq!(
        SentenceDescription::closest_bool_is_number_away(true, 0, &truths, true, 9),
        description(Sentence::ClosestBoolIsNumberAway, vec![Value::Bool(true), Value::Number(3)])
    );
    assert_eq!(
        SentenceDescription::closest_bool_is_number_away(true, 2, &truths, false, 9),
        description(Sentence::ClosestBoolIsNumberAway, vec![Value::Bool(false), Value::Number(1)])
    );
}

#[test]
fn closest_bool_gives_a_false_distance() {
    let truths = vec![true, false, false, true];
    assert_eq!(
        SentenceDescription::closest_bool_is_number_away(false, 0, &truths, true, 0),
        description(Sentence::ClosestBoolIsNumberAway, vec![Value::Bool(true), Value::Number(1)])
    );
    assert_eq!(
        SentenceDescription::closest_bool_is_number_away(false, 0, &truths, true, 2),
        description(Sentence::ClosestBoolIsNumberAway, vec![Value::Bool(true), Value::Number(4)])
    );
}

#[test]
fn closest_bool_with_no_match_speaks_of_the_other_truth_value() {
    let truths = vec![true, false, false];
    assert_eq!(
        SentenceDescription::closest_bool_is_number_away(true, 0, &truths, true, 9),
        description(Sentence::ClosestBoolIsNumberAway, vec![Value::Bool(false), Value::Number(1)])
    );
    assert_eq!(
        SentenceDescription::closest_bool_is_number_away(false, 0, &truths, true, 7),
        description(Sentence::ClosestBoolIsNumberAway, vec![Value::Bool(true), Value::Number(2)])
    );
    let made = SentenceDescription::closest_bool_is_number_away(true, 0, &truths, true, 9);
    assert_eq!(made.claims(0, &truths), Ok(true));
}

#[test]
fn alternating_groups_number() {
    let truths = vec![true, true, false];
    assert_eq!(
        SentenceDescription::there_are_number_of_alternating_groups(true, &truths, 3),
        description(Sentence::ThereAreNumberOfAlternatingGroups, vec![Value::Number(2)])
    );
    assert_eq!(
        SentenceDescription::there_are_number_of_alternating_groups(false, &truths, 0),
        description(Sentence::ThereAreNumberOfAlternatingGroups, vec![Value::Number(1)])
    );
    assert_eq!(
        SentenceDescription::there_are_number_of_alternating_groups(false, &truths, 1),
        description(Sentence::ThereAreNumberOfAlternatingGroups, vec![Value::Number(3)])
    );
}

#[test]
fn positions_differ_scenario() {
    let truths = vec![true, true, false];
    let made = SentenceDescription::id_sentence_and_id_sentence(true, &truths, false, 0, 5);
    assert_eq!(
        made,
        description(
            Sentence::IdSentenceAndIdSentenceAreDifferent,
            vec![Value::Id(1), Value::Id(3)]
        )
    );
    assert_eq!(made.claims(0, &truths), Ok(true));
    let level = Level {
        sentences: vec![
            made,
            description(Sentence::ThereAreNumberOfAlternatingGroups, vec![Value::Number(2)]),
            description(Sentence::IdSentenceIsBool, vec![Value::Id(1), Value::Bool(false)]),
        ],
    };
    let evaluation = evaluate_sentences(&level, &truths).unwrap();
    assert!(evaluation.consistent[0]);

    let truths = vec![true, false, false];
    let made = SentenceDescription::id_sentence_and_id_sentence(true, &truths, false, 0, 5);
    assert_eq!(
        made,
        description(
            Sentence::IdSentenceAndIdSentenceAreDifferent,
            vec![Value::Id(1), Value::Id(3)]
        )
    );
    assert_eq!(made.claims(0, &truths), Ok(true));
}

#[test]
fn the_second_position_is_picked_among_those_that_serve() {
    let truths = vec![true, true, false, true];
    assert_eq!(
        SentenceDescription::id_sentence_and_id_sentence(true, &truths, true, 0, 1),
        description(Sentence::IdSentenceAndIdSentenceAreTheSame, vec![Value::Id(1), Value::Id(4)])
    );
    assert_eq!(
        SentenceDescription::id_sentence_and_id_sentence(true, &truths, true, 4, 2),
        description(Sentence::IdSentenceAndIdSentenceAreTheSame, vec![Value::Id(1), Value::Id(2)])
    );
    assert_eq!(
        SentenceDescription::id_sentence_and_id_sentence(false, &truths, true, 1, 8),
        description(Sentence::IdSentenceAndIdSentenceAreTheSame, vec![Value::Id(2), Value::Id(3)])
    );
    assert_eq!(
        SentenceDescription::id_sentence_and_id_sentence(false, &truths, false, 3, 5),
        description(
            Sentence::IdSentenceAndIdSentenceAreDifferent,
            vec![Value::Id(4), Value::Id(2)]
        )
    );
}

#[test]
fn with_no_position_that_serves_the_other_form_is_taken() {
    let all_true = vec![true, true, true];
    let made = SentenceDescription::id_sentence_and_id_sentence(false, &all_true, true, 1, 0);
    assert_eq!(
        made,
        description(
            Sentence::IdSentenceAndIdSentenceAreDifferent,
            vec![Value::Id(2), Value::Id(1)]
        )
    );
    assert_eq!(made.claims(0, &all_true), Ok(false));
    let made = SentenceDescription::id_sentence_and_id_sentence(false, &all_true, true, 1, 1);
    assert_eq!(
        made,
        description(
            Sentence::IdSentenceAndIdSentenceAreDifferent,
            vec![Value::Id(2), Value::Id(3)]
        )
    );
    let two = vec![true, false];
    let made = SentenceDescription::id_sentence_and_id_sentence(false, &two, false, 0, 3);
    assert_eq!(
        made,
        description(Sentence::IdSentenceAndIdSentenceAreTheSame, vec![Value::Id(1), Value::Id(2)])
    );
    assert_eq!(made.claims(0, &two), Ok(false));
    let made = SentenceDescription::id_sentence_and_id_sentence(true, &two, true, 1, 3);
    assert_eq!(
        made,
        description(
            Sentence::IdSentenceAndIdSentenceAreDifferent,
            vec![Value::Id(2), Value::Id(1)]
        )
    );
    assert_eq!(made.claims(1, &two), Ok(true));
}

#[test]
fn collects_the_positions_that_match() {
    let truths = vec![true, false, true, true];
    assert_eq!(matching_positions(&truths, 2, true), vec![0, 3]);
    assert_eq!(matching_positions(&truths, 1, false), Vec::<usize>::new());
    assert_eq!(matching_positions(&truths, 0, false), vec![1]);
    assert_eq!(matching_positions(&truths, 9, true), vec![0, 2, 3]);
}

#[test]
fn every_form_claims_what_was_asked_for_every_draw() {
    for truths in rows().iter() {
        for position in 0..truths.len() {
            for is_true in [true, false] {
                for draw in 0..12u32 {
                    for truth in [true, false] {
                        let made = [
                            SentenceDescription::id_sentence_is_bool(
                                is_true, position, truths, draw,
                            ),
                            SentenceDescription::there_are_number_of_bool_sentences(
                                is_true, truths, truth, draw,
                            ),
                            SentenceDescription::closest_bool_is_number_away(
                                is_true, position, truths, truth, draw,
                            ),
                            SentenceDescription::there_are_number_of_alternating_groups(
                                is_true, truths, draw,
                            ),
                            SentenceDescription::id_sentence_and_id_sentence(
                                is_true, truths, truth, draw, draw / 3,
                            ),
                        ];
                        for sentence in made.iter() {
                            assert_eq!(
                                sentence.claims(position, truths),
                                Ok(is_true),
                                "{:?} at {} of {:?}",
                                sentence,
                                position,
                                truths
                            );
                        }
                    }
                }
            }
        }
    }
}

#[test]
fn generated_sentences_claim_what_was_asked() {
    let mut rng = StdRng::seed_from_u64(99);
    let mut forms = Vec::new();
    for truths in rows().iter() {
        for _ in 0..40 {
            for position in 0..truths.len() {
                for is_true in [true, false] {
                    let made =
                        SentenceDescription::generate(is_true, position, truths, &mut rng);
                    assert_eq!(made.claims(position, truths), Ok(is_true));
                    if !forms.contains(&made.sentence) {
                        forms.push(made.sentence);
                    }
                }
            }
        }
    }
    assert_eq!(forms.len(), 6);
}

#[test]
fn generated_rows_have_three_to_six_entries() {
    let mut rng = StdRng::seed_from_u64(3);
    let mut lengths = [0usize; 7];
    let mut marks = [0usize; 2];
    for _ in 0..400 {
        let truths = generate_truths(&mut rng);
        assert!(3 <= truths.len() && truths.len() <= 6);
        lengths[truths.len()] += 1;
        for truth in truths.iter() {
            marks[*truth as usize] += 1;
        }
    }
    for length in 3..=6 {
        assert!(lengths[length] > 50);
    }
    assert!(marks[0] > 600);
    assert!(marks[1] > 600);
}

#[test]
fn the_row_solves_the_puzzle_written_for_it() {
    let mut rng = StdRng::seed_from_u64(17);
    for _ in 0..200 {
        let truths = generate_truths(&mut rng);
        let level = generate_sentences(&truths, &mut rng);
        assert_eq!(level.sentences.len(), truths.len());
        for (position, sentence) in level.sentences.iter().enumerate() {
            assert_eq!(sentence.claims(position, &truths), Ok(truths[position]));
        }
        let evaluation = evaluate_sentences(&level, &truths).unwrap();
        assert!(evaluation.pass);
        assert_eq!(evaluation.consistent, vec![true; truths.len()]);
    }
}

fn within(level: &Level) -> bool {
    let count = level.sentences.len() as u32;
    level.sentences.iter().all(|sentence| {
        sentence.values.iter().all(|value| match *value {
            Value::Id(id) => 1 <= id && id <= count,
            Value::Number(number) => number <= count,
            Value::Bool(_) => true,
        })
    })
}

#[test]
fn puzzles_of_three_and_of_six_sentences_stay_in_range() {
    let mut rng = StdRng::seed_from_u64(8);
    for truths in [
        vec![true, false, true],
        vec![true, true, true],
        vec![false, true, false, false, true, true],
        vec![false, false, false, false, false, false],
    ] {
        for _ in 0..100 {
            let solved = generate_sentences(&truths, &mut rng);
            assert!(within(&solved));
            let shuffled = solved.shuffle(&mut rng);
            assert_eq!(shuffled.sentences.len(), truths.len());
            assert!(within(&shuffled));
        }
    }
}

#[test]
fn a_new_level_is_a_well_formed_puzzle() {
    let mut rng = StdRng::seed_from_u64(21);
    let mut sizes = [0usize; 7];
    for _ in 0..300 {
        let level = generate_level(&mut rng);
        let count = level.sentences.len();
        assert!(3 <= count && count <= 6);
        sizes[count] += 1;
        assert!(within(&level));
        let marking = vec![true; count];
        assert!(evaluate_sentences(&level, &marking).is_ok());
    }
    assert!(sizes[3] > 0 && sizes[4] > 0 && sizes[5] > 0 && sizes[6] > 0);
}

#[test]
fn level_get_makes_a_new_puzzle_whatever_the_number() {
    let mut first = StdRng::seed_from_u64(4);
    let mut second = StdRng::seed_from_u64(4);
    let one = Level::get(1, &mut first);
    let other = Level::get(250, &mut second);
    assert_eq!(one, other);
    assert_eq!(generate_level(&mut first), generate_level(&mut second));
    assert!(within(&one));
}

#[test]
fn a_draw_selects_three_to_six_sentences() {
    assert_eq!(sentence_count(0), 3);
    assert_eq!(sentence_count(1), 4);
    assert_eq!(sentence_count(2), 5);
    assert_eq!(sentence_count(3), 6);
    assert_eq!(sentence_count(4), 3);
    assert_eq!(sentence_count(1001), 4);
    assert_eq!(sentence_count(u32::MAX), 6);
}
