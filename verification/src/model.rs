//! The data model: questions, answers and derived progress.

use vstd::prelude::*;

use crate::timestamp::Timestamp;

verus! {

/// Composite identity of a question: numeric ids are only unique per topic,
/// so the pair (id, topic) is the natural key used everywhere.
#[derive(Debug)]
pub struct QuestionId {
    pub id: u64,
    pub topic: String,
}

/// Mathematical model of a [`QuestionId`]: the numeric id together with the
/// topic name as a sequence of characters.
pub ghost struct QuestionIdView {
    pub id: u64,
    pub topic: Seq<char>,
}

impl View for QuestionId {
    type V = QuestionIdView;

    open spec fn view(&self) -> QuestionIdView {
        QuestionIdView { id: self.id, topic: self.topic@ }
    }
}

impl QuestionId {
    pub fn new(id: u64, topic: &str) -> (r: QuestionId)
        ensures
            r@ == (QuestionIdView { id, topic: topic@ }),
    {
        QuestionId { id, topic: topic.to_owned() }
    }
}

impl Clone for QuestionId {
    fn clone(&self) -> (r: QuestionId)
        ensures
            r@ == self@,
    {
        QuestionId { id: self.id, topic: self.topic.clone() }
    }
}

/// An immutable record of the question bank: created once at seed time,
/// never mutated or deleted afterwards.
#[derive(Debug)]
pub struct Question {
    pub id: u64,
    pub question: String,
    pub answer: String,
    pub topic: String,
}

/// Mathematical model of a [`Question`].
pub ghost struct QuestionView {
    pub id: u64,
    pub question: Seq<char>,
    pub answer: Seq<char>,
    pub topic: Seq<char>,
}

impl QuestionView {
    /// The natural key of the question inside the bank.
    pub open spec fn key(self) -> QuestionIdView {
        QuestionIdView { id: self.id, topic: self.topic }
    }
}

impl View for Question {
    type V = QuestionView;

    open spec fn view(&self) -> QuestionView {
        QuestionView {
            id: self.id,
            question: self.question@,
            answer: self.answer@,
            topic: self.topic@,
        }
    }
}

impl Question {
    /// The identity of this question, as used by the answer log and the
    /// review selector.
    pub fn get_id(&self) -> (r: QuestionId)
        ensures
            r@ == self@.key(),
    {
        QuestionId { id: self.id, topic: self.topic.clone() }
    }
}

impl Clone for Question {
    fn clone(&self) -> (r: Question)
        ensures
            r@ == self@,
    {
        Question {
            id: self.id,
            question: self.question.clone(),
            answer: self.answer.clone(),
            topic: self.topic.clone(),
        }
    }
}

/// An append-only fact: one attempt at a question, with the wall-clock
/// instant of the attempt and the self-graded correctness flag.
#[derive(Debug)]
pub struct Answer {
    pub question_id: QuestionId,
    pub timestamp: Timestamp,
    pub content: String,
    pub correct: bool,
}

/// Mathematical model of an [`Answer`].
pub ghost struct AnswerView {
    pub question_id: QuestionIdView,
    pub timestamp: Timestamp,
    pub content: Seq<char>,
    pub correct: bool,
}

impl View for Answer {
    type V = AnswerView;

    open spec fn view(&self) -> AnswerView {
        AnswerView {
            question_id: self.question_id@,
            timestamp: self.timestamp,
            content: self.content@,
            correct: self.correct,
        }
    }
}

impl Answer {
    pub fn new(question_id: &QuestionId, timestamp: Timestamp, content: &str, correct: bool) -> (r:
        Answer)
        ensures
            r@ == (AnswerView {
                question_id: question_id@,
                timestamp,
                content: content@,
                correct,
            }),
    {
        Answer { question_id: question_id.clone(), timestamp, content: content.to_owned(), correct }
    }
}

impl Clone for Answer {
    fn clone(&self) -> (r: Answer)
        ensures
            r@ == self@,
    {
        Answer {
            question_id: self.question_id.clone(),
            timestamp: self.timestamp,
            content: self.content.clone(),
            correct: self.correct,
        }
    }
}

/// Derived mastery ratio for one topic (or for the sentinel "Total" row):
/// `nominator` questions with at least one correct answer out of
/// `denominator` distinct questions attempted.  Not stored; recomputed on
/// demand from the answer log.
#[derive(Debug)]
pub struct Progress {
    pub topic: String,
    pub nominator: u64,
    pub denominator: u64,
}

/// Mathematical model of a [`Progress`] row.
pub ghost struct ProgressView {
    pub topic: Seq<char>,
    pub nominator: u64,
    pub denominator: u64,
}

impl View for Progress {
    type V = ProgressView;

    open spec fn view(&self) -> ProgressView {
        ProgressView {
            topic: self.topic@,
            nominator: self.nominator,
            denominator: self.denominator,
        }
    }
}

impl Progress {
    pub fn new(topic: String, nominator: u64, denominator: u64) -> (r: Progress)
        ensures
            r@ == (ProgressView { topic: topic@, nominator, denominator }),
    {
        Progress { topic, nominator, denominator }
    }

    /// The mastery ratio in hundredths of a percent, rounded to the
    /// nearest hundredth (halves up): two correct out of three reads as
    /// 66.67 percent.  A row with no attempted question reports zero
    /// rather than a division fault.
    pub fn percent_hundredths(&self) -> (r: u64)
        requires
            self.nominator <= self.denominator,
        ensures
            self.denominator > 0 ==> r == (20000 * self.nominator + self.denominator) as int / (2
                * self.denominator as int),
            self.denominator == 0 ==> r == 0,
            r <= 10000,
    {
        if self.denominator == 0 {
            0
        } else {
            let nom = self.nominator as u128;
            let denom = self.denominator as u128;
            let wide: u128 = (20000u128 * nom + denom) / (2u128 * denom);
            proof {
                let x = 20000 * self.nominator as int + self.denominator as int;
                let d = 2 * self.denominator as int;
                assert(x / d <= 10000) by {
                    vstd::arithmetic::div_mod::lemma_div_is_ordered(
                        x,
                        20001 * self.denominator as int,
                        d,
                    );
                    vstd::arithmetic::div_mod::lemma_fundamental_div_mod_converse(
                        20001 * self.denominator as int,
                        d,
                        10000,
                        self.denominator as int,
                    );
                }
            }
            wide as u64
        }
    }
}

impl Clone for Progress {
    fn clone(&self) -> (r: Progress)
        ensures
            r@ == self@,
    {
        Progress {
            topic: self.topic.clone(),
            nominator: self.nominator,
            denominator: self.denominator,
        }
    }
}

/// A calendar date, held as plain year, month and day values.
#[derive(Clone, Copy, PartialEq, Eq, Structural, Debug)]
pub struct Date {
    pub year: i32,
    pub month: u8,
    pub day: u8,
}

/// Per-day tally of correct and incorrect attempts.
#[derive(Debug)]
pub struct DailyProgress {
    pub date: Date,
    pub false_count: u64,
    pub correct_count: u64,
}

impl DailyProgress {
    pub fn new(date: Date, correct_count: u64, false_count: u64) -> (r: DailyProgress)
        ensures
            r.date == date,
            r.correct_count == correct_count,
            r.false_count == false_count,
    {
        DailyProgress { date, correct_count, false_count }
    }

    /// The number of attempts on that day, correct and incorrect together.
    pub fn full_amount(&self) -> (r: u64)
        requires
            self.false_count + self.correct_count <= u64::MAX,
        ensures
            r == self.false_count + self.correct_count,
    {
        self.false_count + self.correct_count
    }
}

/// How often an answer sequence was graded correct.
pub open spec fn spec_count_correct(answers: Seq<AnswerView>) -> int
    decreases answers.len(),
{
    if answers.len() == 0 {
        0
    } else {
        spec_count_correct(answers.drop_last()) + if answers.last().correct {
            1int
        } else {
            0int
        }
    }
}

/// Read-side composition of one question with its full answer history; used
/// to render "X times correct out of Y attempts" before asking again.
#[derive(Debug)]
pub struct QuestionAnswers {
    pub question: Question,
    pub answers: Vec<Answer>,
}

/// Mathematical model of a [`QuestionAnswers`] record.
pub ghost struct QuestionAnswersView {
    pub question: QuestionView,
    pub answers: Seq<AnswerView>,
}

impl View for QuestionAnswers {
    type V = QuestionAnswersView;

    open spec fn view(&self) -> QuestionAnswersView {
        QuestionAnswersView {
            question: self.question@,
            answers: self.answers@.map_values(|a: Answer| a@),
        }
    }
}

impl QuestionAnswers {
    pub fn new(question: &Question, answers: &[Answer]) -> (r: QuestionAnswers)
        ensures
            r@.question == question@,
            r@.answers == answers@.map_values(|a: Answer| a@),
    {
        let mut copied: Vec<Answer> = Vec::new();
        let mut i: usize = 0;
        while i < answers.len()
            invariant
                i <= answers.len(),
                copied@.len() == i,
                forall|j: int| 0 <= j < i ==> #[trigger] copied@[j]@ == answers@[j]@,
            decreases answers.len() - i,
        {
            copied.push(answers[i].clone());
            i = i + 1;
        }
        proof {
            assert(copied@.map_values(|a: Answer| a@) =~= answers@.map_values(|a: Answer| a@));
        }
        QuestionAnswers { question: question.clone(), answers: copied }
    }

    /// How many of the recorded attempts were graded correct.
    pub fn count_correct(&self) -> (r: usize)
        ensures
            r == spec_count_correct(self@.answers),
    {
        let mut n: usize = 0;
        let mut i: usize = 0;
        while i < self.answers.len()
            invariant
                i <= self.answers.len(),
                n == spec_count_correct(self@.answers.subrange(0, i as int)),
                n <= i,
            decreases self.answers.len() - i,
        {
            proof {
                assert(self@.answers.subrange(0, i + 1 as int).drop_last() == self@.answers.subrange(
                    0,
                    i as int,
                ));
                assert(self@.answers.subrange(0, i + 1 as int).last() == self@.answers[i as int]);
            }
            if self.answers[i].correct {
                n = n + 1;
            }
            i = i + 1;
        }
        proof {
            assert(self@.answers.subrange(0, self@.answers.len() as int) == self@.answers);
        }
        n
    }
}

} // verus!
