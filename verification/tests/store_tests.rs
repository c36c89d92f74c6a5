use sks_trainer::model::{Question, QuestionId};
use sks_trainer::store::{RawAnswer, Snapshot, Store, StoreError};
use sks_trainer::timestamp::{encode_timestamp, Timestamp};

fn q(id: u64, topic: &str, question: &str, answer: &str) -> Question {
    Question {
        id,
        question: question.to_string(),
        answer: answer.to_string(),
        topic: topic.to_string(),
    }
}

fn seed_bank() -> Vec<Question> {
    vec![
        q(1, "Navigation", "What is a bearing?", "The horizontal angle to a target."),
        q(2, "Navigation", "What is variation?", "The angle between true and magnetic north."),
        q(3, "Navigation", "What is deviation?", "The compass error caused by the vessel."),
        q(1, "Wetterkunde", "What is a front?", "The boundary between two air masses."),
    ]
}

#[test]
fn init_seeds_once() {
    let mut seeds = seed_bank();
    // a duplicate key in the bundled data is skipped, not fatal
    seeds.push(q(1, "Navigation", "Duplicate row", "Should be skipped"));

    let first = Store::open(None, &seeds).unwrap();
    assert_eq!(first.candidates(0, 100).len(), 4);

    // the location now holds the four seeded questions; a second
    // initialization must not seed again
    let snapshot = Snapshot { questions: seed_bank(), answers: Vec::new() };
    let second = Store::open(Some(&snapshot), &seeds).unwrap();
    assert_eq!(second.candidates(0, 100).len(), 4);
}

#[test]
fn seed_reports_per_row_failures() {
    let mut store = Store::new();
    let mut rows = seed_bank();
    rows.push(q(2, "Navigation", "Duplicate", "Duplicate"));
    let report = store.seed(&rows);
    assert_eq!(report.inserted, 4);
    assert_eq!(report.failures.len(), 1);
    assert_eq!(report.failures[0].id, 2);
    assert_eq!(report.failures[0].topic, "Navigation");
    // the batch as a whole still succeeded
    assert_eq!(store.candidates(0, 100).len(), 4);
}

#[test]
fn append_then_history_returns_the_answer() {
    let mut store = Store::new();
    store.seed(&seed_bank());
    let qid = QuestionId::new(1, "Navigation");
    let now = Timestamp::new(1700000000);
    store.append(&qid, "my answer", true, now).unwrap();

    let history = store.history(&qid);
    assert_eq!(history.len(), 1);
    assert_eq!(history[0].question_id.id, 1);
    assert_eq!(history[0].question_id.topic, "Navigation");
    assert_eq!(history[0].content, "my answer");
    assert!(history[0].correct);
    assert_eq!(history[0].timestamp, now);

    // a question never answered has an empty history, not an error
    let other = QuestionId::new(2, "Navigation");
    assert!(store.history(&other).is_empty());
}

#[test]
fn append_rejects_unknown_question() {
    let mut store = Store::new();
    store.seed(&seed_bank());
    let qid = QuestionId::new(99, "Navigation");
    let r = store.append(&qid, "answer", true, Timestamp::new(0));
    assert_eq!(r, Err(StoreError::NotFound));
    assert!(store.history(&qid).is_empty());
}

#[test]
fn get_finds_exactly_the_keyed_question() {
    let mut store = Store::new();
    store.seed(&seed_bank());
    let found = store.get(&QuestionId::new(1, "Wetterkunde")).unwrap();
    assert_eq!(found.id, 1);
    assert_eq!(found.topic, "Wetterkunde");
    assert_eq!(found.question, "What is a front?");

    let missing = store.get(&QuestionId::new(1, "Seemannschaft"));
    assert_eq!(missing.unwrap_err(), StoreError::NotFound);
}

#[test]
fn question_answers_composes_question_and_history() {
    let mut store = Store::new();
    store.seed(&seed_bank());
    let qid = QuestionId::new(2, "Navigation");
    store.append(&qid, "right", true, Timestamp::new(100)).unwrap();
    store.append(&qid, "wrong", false, Timestamp::new(200)).unwrap();
    store.append(&qid, "right again", true, Timestamp::new(300)).unwrap();

    let qa = store.question_answers(&qid).unwrap();
    assert_eq!(qa.question.id, 2);
    assert_eq!(qa.answers.len(), 3);
    assert_eq!(qa.count_correct(), 2);

    let missing = store.question_answers(&QuestionId::new(9, "Navigation"));
    assert_eq!(missing.unwrap_err(), StoreError::NotFound);
}

#[test]
fn aggregation_counts_distinct_questions() {
    let mut store = Store::new();
    store.seed(&seed_bank());
    let now = Timestamp::new(1700000000);
    // three Navigation questions attempted, two of them with at least one
    // correct answer ever
    store.append(&QuestionId::new(1, "Navigation"), "a", true, now).unwrap();
    store.append(&QuestionId::new(1, "Navigation"), "b", false, now).unwrap();
    store.append(&QuestionId::new(2, "Navigation"), "c", false, now).unwrap();
    store.append(&QuestionId::new(2, "Navigation"), "d", true, now).unwrap();
    store.append(&QuestionId::new(3, "Navigation"), "e", false, now).unwrap();

    let rows = store.by_topic();
    assert_eq!(rows.len(), 1);
    assert_eq!(rows[0].topic, "Navigation");
    assert_eq!(rows[0].nominator, 2);
    assert_eq!(rows[0].denominator, 3);
    assert_eq!(rows[0].percent_hundredths(), 6667);
}

#[test]
fn overall_sums_the_by_topic_rows() {
    let mut store = Store::new();
    store.seed(&seed_bank());
    let now = Timestamp::new(1700000000);
    store.append(&QuestionId::new(1, "Navigation"), "a", true, now).unwrap();
    store.append(&QuestionId::new(2, "Navigation"), "b", false, now).unwrap();
    store.append(&QuestionId::new(1, "Wetterkunde"), "c", true, now).unwrap();

    let rows = store.by_topic();
    assert_eq!(rows.len(), 2);
    let overall = store.overall();
    assert_eq!(overall.topic, "Total");
    assert_eq!(overall.nominator, rows.iter().map(|r| r.nominator).sum::<u64>());
    assert_eq!(overall.denominator, rows.iter().map(|r| r.denominator).sum::<u64>());
    assert_eq!(overall.nominator, 2);
    assert_eq!(overall.denominator, 3);
}

#[test]
fn overall_with_no_answers_is_defined() {
    let mut store = Store::new();
    store.seed(&seed_bank());
    let overall = store.overall();
    assert_eq!(overall.topic, "Total");
    assert_eq!(overall.nominator, 0);
    assert_eq!(overall.denominator, 0);
    assert_eq!(overall.percent_hundredths(), 0);
    assert!(store.by_topic().is_empty());
}

#[test]
fn selection_is_deterministic() {
    let mut store = Store::new();
    store.seed(&seed_bank());
    let first = store.candidates(1, 2);
    let second = store.candidates(1, 2);
    assert_eq!(first.len(), 2);
    assert_eq!(second.len(), 2);
    for (a, b) in first.iter().zip(second.iter()) {
        assert_eq!(a.id, b.id);
        assert_eq!(a.topic, b.topic);
    }
    assert_eq!(first[0].id, 2);
    assert_eq!(first[0].topic, "Navigation");
}

#[test]
fn selection_beyond_the_list_is_exhaustion() {
    let mut store = Store::new();
    store.seed(&seed_bank());
    assert!(store.candidates(4, 1).is_empty());
    assert!(store.candidates(20, 1).is_empty());
    assert_eq!(store.next_candidate(4).unwrap_err(), StoreError::NoCandidates);
    assert_eq!(store.next_candidate(3).unwrap().topic, "Wetterkunde");
}

#[test]
fn load_restores_persisted_rows() {
    let ts = Timestamp::new(1700000000);
    let snapshot = Snapshot {
        questions: seed_bank(),
        answers: vec![RawAnswer {
            question_id: QuestionId::new(3, "Navigation"),
            timestamp: encode_timestamp(&ts),
            content: "stored answer".to_string(),
            correct: true,
        }],
    };
    let store = Store::load(&snapshot).unwrap();
    let history = store.history(&QuestionId::new(3, "Navigation"));
    assert_eq!(history.len(), 1);
    assert_eq!(history[0].timestamp, ts);
    assert_eq!(history[0].content, "stored answer");
}

#[test]
fn load_rejects_unreadable_timestamp() {
    let snapshot = Snapshot {
        questions: seed_bank(),
        answers: vec![RawAnswer {
            question_id: QuestionId::new(1, "Navigation"),
            timestamp: b"not-a-valid-instant!".to_vec(),
            content: "x".to_string(),
            correct: false,
        }],
    };
    assert_eq!(Store::load(&snapshot).unwrap_err(), StoreError::DataCorruption);
}

#[test]
fn load_rejects_dangling_answer() {
    let snapshot = Snapshot {
        questions: seed_bank(),
        answers: vec![RawAnswer {
            question_id: QuestionId::new(42, "Navigation"),
            timestamp: encode_timestamp(&Timestamp::new(0)),
            content: "orphan".to_string(),
            correct: true,
        }],
    };
    assert_eq!(Store::load(&snapshot).unwrap_err(), StoreError::DataCorruption);
}

#[test]
fn load_rejects_colliding_keys() {
    let mut questions = seed_bank();
    questions.push(q(1, "Navigation", "Clone", "Clone"));
    let snapshot = Snapshot { questions, answers: Vec::new() };
    assert_eq!(Store::load(&snapshot).unwrap_err(), StoreError::DataCorruption);
}
