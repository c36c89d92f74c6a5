use sks_trainer::args::Args;
use sks_trainer::config::{ApplicationConfig, ProjectDirs};
use sks_trainer::model::{
    Answer, DailyProgress, Date, Progress, Question, QuestionAnswers, QuestionId,
};
use sks_trainer::timestamp::Timestamp;

#[test]
fn question_id_holds_id_and_topic() {
    let qid = QuestionId::new(7, "Navigation");
    assert_eq!(qid.id, 7);
    assert_eq!(qid.topic, "Navigation");
}

#[test]
fn get_id_is_the_natural_key() {
    let q = Question {
        id: 3,
        question: "Q".to_string(),
        answer: "A".to_string(),
        topic: "Recht".to_string(),
    };
    let qid = q.get_id();
    assert_eq!(qid.id, 3);
    assert_eq!(qid.topic, "Recht");
}

#[test]
fn answer_new_copies_its_parts() {
    let qid = QuestionId::new(1, "Navigation");
    let ts = Timestamp::new(12345);
    let a = Answer::new(&qid, ts, "free text", true);
    assert_eq!(a.question_id.id, 1);
    assert_eq!(a.question_id.topic, "Navigation");
    assert_eq!(a.timestamp, ts);
    assert_eq!(a.content, "free text");
    assert!(a.correct);
}

#[test]
fn count_correct_counts_only_correct_answers() {
    let q = Question {
        id: 1,
        question: "Q".to_string(),
        answer: "A".to_string(),
        topic: "T".to_string(),
    };
    let qid = q.get_id();
    let answers = vec![
        Answer::new(&qid, Timestamp::new(1), "a", true),
        Answer::new(&qid, Timestamp::new(2), "b", false),
        Answer::new(&qid, Timestamp::new(3), "c", true),
    ];
    let qa = QuestionAnswers::new(&q, &answers);
    assert_eq!(qa.count_correct(), 2);
    assert_eq!(qa.answers.len(), 3);

    let none = QuestionAnswers::new(&q, &[]);
    assert_eq!(none.count_correct(), 0);
}

#[test]
fn percent_hundredths_rounds_to_nearest() {
    assert_eq!(Progress::new("T".to_string(), 2, 3).percent_hundredths(), 6667);
    assert_eq!(Progress::new("T".to_string(), 1, 3).percent_hundredths(), 3333);
    assert_eq!(Progress::new("T".to_string(), 1, 2).percent_hundredths(), 5000);
    assert_eq!(Progress::new("T".to_string(), 5, 5).percent_hundredths(), 10000);
    assert_eq!(Progress::new("T".to_string(), 0, 7).percent_hundredths(), 0);
    assert_eq!(Progress::new("T".to_string(), 0, 0).percent_hundredths(), 0);
}

#[test]
fn daily_progress_sums_both_tallies() {
    let day = Date { year: 2024, month: 2, day: 29 };
    let d = DailyProgress::new(day, 3, 4);
    assert_eq!(d.full_amount(), 7);
    assert_eq!(d.date, day);
    assert_eq!(d.correct_count, 3);
    assert_eq!(d.false_count, 4);
}

#[test]
fn config_carries_the_store_location() {
    let dirs = ProjectDirs {
        project_path: "/tmp/app".to_string(),
        cache_dir: "/tmp/app/cache".to_string(),
        config_dir: "/tmp/app/config".to_string(),
        config_local_dir: "/tmp/app/config".to_string(),
        data_dir: "/tmp/app/data".to_string(),
        data_local_dir: "/tmp/app/data".to_string(),
        preference_dir: "/tmp/app/pref".to_string(),
        database_path: "/tmp/app/data/sks-trainer.db".to_string(),
    };
    let config = ApplicationConfig::new(dirs);
    assert_eq!(config.project_dirs.database_path, "/tmp/app/data/sks-trainer.db");

    let args = Args::new(2, false);
    assert_eq!(args.verbose, 2);
    assert!(!args.quiet);
}
