//! The store: the durable record of questions and answers.
//!
//! The store holds the immutable question bank and the append-only answer
//! log, enforces referential integrity between them, selects review
//! candidates, and aggregates progress.  Reading the backing file and
//! writing rows back to it is a collaborator's job; the rows themselves are
//! handed in and out as plain values.

use vstd::prelude::*;

use crate::model::{
    Answer,
    AnswerView,
    Progress,
    ProgressView,
    Question,
    QuestionAnswers,
    QuestionId,
    QuestionIdView,
    QuestionView,
};
use crate::timestamp::{decode_timestamp, encoding_of, Timestamp};

verus! {

/// One answer row as persisted: the timestamp still in its canonical text
/// form, not yet read back.
#[derive(Debug)]
pub struct RawAnswer {
    pub question_id: QuestionId,
    pub timestamp: Vec<u8>,
    pub content: String,
    pub correct: bool,
}

/// Mathematical model of a [`RawAnswer`].
pub ghost struct RawAnswerView {
    pub question_id: QuestionIdView,
    pub timestamp: Seq<u8>,
    pub content: Seq<char>,
    pub correct: bool,
}

impl View for RawAnswer {
    type V = RawAnswerView;

    open spec fn view(&self) -> RawAnswerView {
        RawAnswerView {
            question_id: self.question_id@,
            timestamp: self.timestamp@,
            content: self.content@,
            correct: self.correct,
        }
    }
}

/// Everything a location holds: the persisted bank and the persisted
/// answer rows.
#[derive(Debug)]
pub struct Snapshot {
    pub questions: Vec<Question>,
    pub answers: Vec<RawAnswer>,
}

/// Mathematical model of a [`Snapshot`].
pub ghost struct SnapshotView {
    pub bank: Seq<QuestionView>,
    pub rows: Seq<RawAnswerView>,
}

impl View for Snapshot {
    type V = SnapshotView;

    open spec fn view(&self) -> SnapshotView {
        SnapshotView {
            bank: self.questions@.map_values(|q: Question| q@),
            rows: self.answers@.map_values(|a: RawAnswer| a@),
        }
    }
}

/// The row's timestamp text is the encoding of some valid instant.
pub open spec fn raw_decodes(row: RawAnswerView) -> bool {
    exists|t: Timestamp| t.valid() && encoding_of(t) == row.timestamp
}

/// The instant a well-formed row's timestamp text encodes.
pub open spec fn decoded_timestamp(row: RawAnswerView) -> Timestamp {
    choose|t: Timestamp| t.valid() && encoding_of(t) == row.timestamp
}

/// The answer a well-formed row reads back as.
pub open spec fn decoded_answer(row: RawAnswerView) -> AnswerView {
    AnswerView {
        question_id: row.question_id,
        timestamp: decoded_timestamp(row),
        content: row.content,
        correct: row.correct,
    }
}

/// Why a store operation could not do its work.
#[derive(Clone, Copy, PartialEq, Eq, Structural, Debug)]
pub enum StoreError {
    /// A lookup named a question that the bank does not hold.
    NotFound,
    /// The selection window lies beyond the candidate list: the session is
    /// exhausted.
    NoCandidates,
    /// A persisted row could not be read back as a well-formed record.
    DataCorruption,
}

/// Mathematical model of a [`Store`]: the bank and the log.
pub ghost struct StoreView {
    pub bank: Seq<QuestionView>,
    pub log: Seq<AnswerView>,
}

/// The outcome of a best-effort bulk insert: how many rows went in, and
/// the keys of the rows that were already taken.
#[derive(Debug)]
pub struct SeedReport {
    pub inserted: usize,
    pub failures: Vec<QuestionId>,
}

/// The answers of `log` whose key is `key`, in insertion order.
pub open spec fn spec_history(log: Seq<AnswerView>, key: QuestionIdView) -> Seq<AnswerView>
    decreases log.len(),
{
    if log.len() == 0 {
        Seq::empty()
    } else {
        let prefix = spec_history(log.drop_last(), key);
        if log.last().question_id == key {
            prefix.push(log.last())
        } else {
            prefix
        }
    }
}

/// The keys of the bank's questions, in bank order: the fixed global
/// candidate ordering.
pub open spec fn bank_keys(bank: Seq<QuestionView>) -> Seq<QuestionIdView> {
    bank.map_values(|q: QuestionView| q.key())
}

/// The window of the candidate list that skips the first `skip` keys and
/// holds at most `count` of the rest.
pub open spec fn spec_window(bank: Seq<QuestionView>, skip: int, count: int) -> Seq<
    QuestionIdView,
> {
    let all = bank_keys(bank);
    if skip >= all.len() {
        Seq::empty()
    } else if skip + count >= all.len() {
        all.subrange(skip, all.len() as int)
    } else {
        all.subrange(skip, skip + count)
    }
}

/// The bank after a best-effort bulk insert of `qs`: each question whose
/// key is still free is appended, the others are left out.
pub open spec fn seeded_bank(bank: Seq<QuestionView>, qs: Seq<QuestionView>) -> Seq<QuestionView>
    decreases qs.len(),
{
    if qs.len() == 0 {
        bank
    } else {
        let b = seeded_bank(bank, qs.drop_last());
        if key_in_bank(b, qs.last().key()) {
            b
        } else {
            b.push(qs.last())
        }
    }
}

/// The keys of the rows that a best-effort bulk insert of `qs` leaves out.
pub open spec fn seed_failures(bank: Seq<QuestionView>, qs: Seq<QuestionView>) -> Seq<
    QuestionIdView,
>
    decreases qs.len(),
{
    if qs.len() == 0 {
        Seq::empty()
    } else {
        let b = seeded_bank(bank, qs.drop_last());
        let f = seed_failures(bank, qs.drop_last());
        if key_in_bank(b, qs.last().key()) {
            f.push(qs.last().key())
        } else {
            f
        }
    }
}

/// Some question in `bank` has the key `key`.
pub open spec fn key_in_bank(bank: Seq<QuestionView>, key: QuestionIdView) -> bool {
    exists|i: int| 0 <= i < bank.len() && bank[i].key() == key
}

/// The question with key `key` was attempted at least once.
pub open spec fn attempted(log: Seq<AnswerView>, key: QuestionIdView) -> bool {
    exists|i: int| 0 <= i < log.len() && log[i].question_id == key
}

/// The question with key `key` has at least one answer graded correct.
pub open spec fn solved(log: Seq<AnswerView>, key: QuestionIdView) -> bool {
    exists|i: int| 0 <= i < log.len() && log[i].question_id == key && log[i].correct
}

/// Distinct questions of `bank` in topic `topic` attempted in `log`.
pub open spec fn count_attempted(bank: Seq<QuestionView>, log: Seq<AnswerView>, topic: Seq<char>)
    -> int
    decreases bank.len(),
{
    if bank.len() == 0 {
        0
    } else {
        count_attempted(bank.drop_last(), log, topic) + if bank.last().topic == topic && attempted(
            log,
            bank.last().key(),
        ) {
            1int
        } else {
            0int
        }
    }
}

/// Distinct questions of `bank` in topic `topic` with a correct answer in
/// `log`.
pub open spec fn count_solved(bank: Seq<QuestionView>, log: Seq<AnswerView>, topic: Seq<char>)
    -> int
    decreases bank.len(),
{
    if bank.len() == 0 {
        0
    } else {
        count_solved(bank.drop_last(), log, topic) + if bank.last().topic == topic && solved(
            log,
            bank.last().key(),
        ) {
            1int
        } else {
            0int
        }
    }
}

/// Distinct questions of `bank` attempted in `log`, over all topics.
pub open spec fn count_attempted_all(bank: Seq<QuestionView>, log: Seq<AnswerView>) -> int
    decreases bank.len(),
{
    if bank.len() == 0 {
        0
    } else {
        count_attempted_all(bank.drop_last(), log) + if attempted(log, bank.last().key()) {
            1int
        } else {
            0int
        }
    }
}

/// Distinct questions of `bank` with a correct answer in `log`, over all
/// topics.
pub open spec fn count_solved_all(bank: Seq<QuestionView>, log: Seq<AnswerView>) -> int
    decreases bank.len(),
{
    if bank.len() == 0 {
        0
    } else {
        count_solved_all(bank.drop_last(), log) + if solved(log, bank.last().key()) {
            1int
        } else {
            0int
        }
    }
}

/// The distinct topics of the bank, in order of first appearance.
pub open spec fn topics_of(bank: Seq<QuestionView>) -> Seq<Seq<char>>
    decreases bank.len(),
{
    if bank.len() == 0 {
        Seq::empty()
    } else {
        let prefix = topics_of(bank.drop_last());
        if prefix.contains(bank.last().topic) {
            prefix
        } else {
            prefix.push(bank.last().topic)
        }
    }
}

/// One progress row for each listed topic with at least one attempted
/// question, in list order.
pub open spec fn rows_for(
    ts: Seq<Seq<char>>,
    bank: Seq<QuestionView>,
    log: Seq<AnswerView>,
) -> Seq<ProgressView>
    decreases ts.len(),
{
    if ts.len() == 0 {
        Seq::empty()
    } else {
        let prefix = rows_for(ts.drop_last(), bank, log);
        if count_attempted(bank, log, ts.last()) > 0 {
            prefix.push(
                ProgressView {
                    topic: ts.last(),
                    nominator: count_solved(bank, log, ts.last()) as u64,
                    denominator: count_attempted(bank, log, ts.last()) as u64,
                },
            )
        } else {
            prefix
        }
    }
}

/// The per-topic progress report: one row per topic with at least one
/// attempted question, in order of the topic's first appearance in the
/// bank.
pub open spec fn spec_progress_rows(bank: Seq<QuestionView>, log: Seq<AnswerView>) -> Seq<
    ProgressView,
> {
    rows_for(topics_of(bank), bank, log)
}

/// No two questions of `bank` share a key.
pub open spec fn bank_keys_unique(bank: Seq<QuestionView>) -> bool {
    forall|i: int, j: int|
        0 <= i < j < bank.len() ==> #[trigger] bank[i].key() != #[trigger] bank[j].key()
}

/// The store's invariant: keys are unique, and every logged answer refers
/// to a question of the bank and carries an encodable timestamp.
pub open spec fn store_inv(s: StoreView) -> bool {
    &&& bank_keys_unique(s.bank)
    &&& forall|i: int|
        0 <= i < s.log.len() ==> key_in_bank(s.bank, #[trigger] s.log[i].question_id)
    &&& forall|i: int| 0 <= i < s.log.len() ==> (#[trigger] s.log[i].timestamp).valid()
}

/// A snapshot reads back cleanly: its bank keys are unique, every row's
/// timestamp text encodes a valid instant, and every row refers to a
/// question of the bank.
pub open spec fn snapshot_ok(s: SnapshotView) -> bool {
    &&& bank_keys_unique(s.bank)
    &&& forall|i: int|
        0 <= i < s.rows.len() ==> raw_decodes(#[trigger] s.rows[i]) && key_in_bank(
            s.bank,
            s.rows[i].question_id,
        )
}

/// The bank an initialization leaves behind: a fresh location is seeded
/// from the bundled questions, an existing one keeps its bank and is not
/// seeded again.
pub open spec fn init_bank(prior: Option<Seq<QuestionView>>, seeds: Seq<QuestionView>) -> Seq<
    QuestionView,
> {
    match prior {
        None => seeded_bank(Seq::<QuestionView>::empty(), seeds),
        Some(bank) => bank,
    }
}

/// Idempotent initialization: a first open seeds the bank; an open of the
/// location that already holds that bank seeds nothing more, so the bank
/// after two initializations is the bank after one.
pub proof fn lemma_init_idempotent(seeds: Seq<QuestionView>)
    ensures
        init_bank(Some(init_bank(None, seeds)), seeds) == init_bank(None, seeds),
{
}

/// The persistence and review-selection core: question bank plus answer
/// log.
#[derive(Debug)]
pub struct Store {
    questions: Vec<Question>,
    answers: Vec<Answer>,
}

impl View for Store {
    type V = StoreView;

    closed spec fn view(&self) -> StoreView {
        StoreView {
            bank: self.questions@.map_values(|q: Question| q@),
            log: self.answers@.map_values(|a: Answer| a@),
        }
    }
}

impl Store {
    pub open spec fn wf(&self) -> bool {
        store_inv(self@)
    }

    /// An empty store: no questions, no answers.
    pub fn new() -> (r: Store)
        ensures
            r@.bank == Seq::<QuestionView>::empty(),
            r@.log == Seq::<AnswerView>::empty(),
            r.wf(),
    {
        let r = Store { questions: Vec::new(), answers: Vec::new() };
        proof {
            assert(r@.bank =~= Seq::<QuestionView>::empty());
            assert(r@.log =~= Seq::<AnswerView>::empty());
        }
        r
    }

    /// The index of the bank question with key `qid`, if the bank holds
    /// one.
    fn find_question(&self, qid: &QuestionId) -> (r: Option<usize>)
        ensures
            match r {
                Some(i) => i < self@.bank.len() && self@.bank[i as int].key() == qid@,
                None => !key_in_bank(self@.bank, qid@),
            },
    {
        let mut i: usize = 0;
        while i < self.questions.len()
            invariant
                i <= self.questions.len(),
                forall|j: int| 0 <= j < i ==> #[trigger] self@.bank[j].key() != qid@,
            decreases self.questions.len() - i,
        {
            let q = &self.questions[i];
            if q.id == qid.id && q.topic == qid.topic {
                assert(self@.bank[i as int].key() == qid@);
                return Some(i);
            }
            i = i + 1;
        }
        None
    }

    /// Exact lookup by (numeric id, topic).  Returns the bank's record, or
    /// `NotFound` when the bank holds no question of that key.
    pub fn get(&self, qid: &QuestionId) -> (r: Result<Question, StoreError>)
        ensures
            match r {
                Ok(q) => exists|i: int|
                    0 <= i < self@.bank.len() && #[trigger] self@.bank[i] == q@ && q@.key() == qid@,
                Err(e) => e == StoreError::NotFound && !key_in_bank(self@.bank, qid@),
            },
    {
        match self.find_question(qid) {
            Some(i) => {
                let q = self.questions[i].clone();
                Ok(q)
            },
            None => Err(StoreError::NotFound),
        }
    }

    /// Append one answer to the log, stamped with the given wall-clock
    /// instant.  The store rejects an answer whose question the bank does
    /// not hold: the log never dangles.
    pub fn append(&mut self, question_id: &QuestionId, content: &str, correct: bool, now: Timestamp)
        -> (r: Result<(), StoreError>)
        requires
            old(self).wf(),
            now.valid(),
        ensures
            final(self).wf(),
            final(self)@.bank == old(self)@.bank,
            match r {
                Ok(()) => key_in_bank(old(self)@.bank, question_id@) && final(self)@.log == old(
                    self,
                )@.log.push(
                    AnswerView { question_id: question_id@, timestamp: now, content: content@, correct },
                ),
                Err(e) => e == StoreError::NotFound && !key_in_bank(old(self)@.bank, question_id@)
                    && final(self)@.log == old(self)@.log,
            },
    {
        match self.find_question(question_id) {
            Some(_) => {
                let a = Answer::new(question_id, now, content, correct);
                self.answers.push(a);
                proof {
                    assert(self@.log =~= old(self)@.log.push(
                        AnswerView {
                            question_id: question_id@,
                            timestamp: now,
                            content: content@,
                            correct,
                        },
                    ));
                    assert(self@.bank =~= old(self)@.bank);
                }
                Ok(())
            },
            None => Err(StoreError::NotFound),
        }
    }

    /// All prior answers to one question, in insertion order (chronological,
    /// as the log is written with the wall clock).  A question that was
    /// never answered yields an empty sequence, not an error.
    pub fn history(&self, question_id: &QuestionId) -> (r: Vec<Answer>)
        ensures
            r@.map_values(|a: Answer| a@) == spec_history(self@.log, question_id@),
    {
        let mut out: Vec<Answer> = Vec::new();
        let mut i: usize = 0;
        while i < self.answers.len()
            invariant
                i <= self.answers.len(),
                out@.map_values(|a: Answer| a@) == spec_history(
                    self@.log.subrange(0, i as int),
                    question_id@,
                ),
            decreases self.answers.len() - i,
        {
            proof {
                assert(self@.log.subrange(0, i + 1).drop_last() =~= self@.log.subrange(0, i as int));
                assert(self@.log.subrange(0, i + 1).last() == self@.log[i as int]);
            }
            let a = &self.answers[i];
            if a.question_id.id == question_id.id && a.question_id.topic == question_id.topic {
                out.push(a.clone());
                proof {
                    assert(out@.map_values(|x: Answer| x@) =~= spec_history(
                        self@.log.subrange(0, i + 1),
                        question_id@,
                    ));
                }
            }
            i = i + 1;
        }
        proof {
            assert(self@.log.subrange(0, self@.log.len() as int) =~= self@.log);
        }
        out
    }

    /// One question together with its whole answer history, or `NotFound`
    /// when the bank does not hold the key.
    pub fn question_answers(&self, question_id: &QuestionId) -> (r: Result<
        QuestionAnswers,
        StoreError,
    >)
        ensures
            match r {
                Ok(qa) => exists|i: int|
                    0 <= i < self@.bank.len() && #[trigger] self@.bank[i] == qa.question@
                        && qa.question@.key() == question_id@,
                Err(e) => e == StoreError::NotFound && !key_in_bank(self@.bank, question_id@),
            },
            r matches Ok(qa) ==> qa@.answers == spec_history(self@.log, question_id@),
    {
        let question = match self.get(question_id) {
            Ok(q) => q,
            Err(e) => {
                return Err(e);
            },
        };
        let answers = self.history(question_id);
        let qa = QuestionAnswers::new(&question, answers.as_slice());
        Ok(qa)
    }

    /// A window of the fixed candidate ordering: skip the first `skip`
    /// keys, take at most `count` of the rest.  A window beyond the end of
    /// the list is empty, never a fault.
    pub fn candidates(&self, skip: usize, count: usize) -> (r: Vec<QuestionId>)
        requires
            count >= 1,
        ensures
            r@.map_values(|q: QuestionId| q@) == spec_window(
                self@.bank,
                skip as int,
                count as int,
            ),
            r@.len() <= count,
    {
        let mut out: Vec<QuestionId> = Vec::new();
        let len = self.questions.len();
        if skip >= len {
            proof {
                assert(out@.map_values(|q: QuestionId| q@) =~= spec_window(
                    self@.bank,
                    skip as int,
                    count as int,
                ));
            }
            return out;
        }
        let end = if count >= len - skip {
            len
        } else {
            skip + count
        };
        let mut i: usize = skip;
        while i < end
            invariant
                skip <= i <= end <= len,
                len == self@.bank.len(),
                end <= skip + count,
                out@.len() == i - skip,
                forall|j: int|
                    0 <= j < out@.len() ==> #[trigger] out@[j]@ == self@.bank[skip + j].key(),
            decreases end - i,
        {
            out.push(self.questions[i].get_id());
            i = i + 1;
        }
        proof {
            assert(out@.map_values(|q: QuestionId| q@) =~= spec_window(
                self@.bank,
                skip as int,
                count as int,
            ));
        }
        out
    }

    /// The single candidate at offset `skip` of the fixed ordering, or
    /// `NoCandidates` when the list is exhausted: the caller's signal to
    /// end the session.
    pub fn next_candidate(&self, skip: usize) -> (r: Result<QuestionId, StoreError>)
        ensures
            match r {
                Ok(qid) => skip < self@.bank.len() && qid@ == bank_keys(self@.bank)[skip as int],
                Err(e) => e == StoreError::NoCandidates && skip >= self@.bank.len(),
            },
    {
        if skip < self.questions.len() {
            Ok(self.questions[skip].get_id())
        } else {
            Err(StoreError::NoCandidates)
        }
    }

    /// Best-effort bulk insert of `questions`, used to seed the bank: each
    /// row whose key is free goes in, the rest are collected as per-row
    /// failures and do not abort the batch.
    pub fn seed(&mut self, questions: &Vec<Question>) -> (r: SeedReport)
        requires
            old(self).wf(),
        ensures
            final(self).wf(),
            final(self)@.bank == seeded_bank(
                old(self)@.bank,
                questions@.map_values(|q: Question| q@),
            ),
            final(self)@.log == old(self)@.log,
            r.failures@.map_values(|q: QuestionId| q@) == seed_failures(
                old(self)@.bank,
                questions@.map_values(|q: Question| q@),
            ),
            r.inserted + r.failures@.len() == questions@.len(),
            final(self)@.bank.len() == old(self)@.bank.len() + r.inserted,
    {
        let ghost qs = questions@.map_values(|q: Question| q@);
        let mut inserted: usize = 0;
        let mut failures: Vec<QuestionId> = Vec::new();
        let mut i: usize = 0;
        while i < questions.len()
            invariant
                i <= questions.len(),
                old(self).wf(),
                self.wf(),
                qs == questions@.map_values(|q: Question| q@),
                qs.len() == questions@.len(),
                self@.bank == seeded_bank(old(self)@.bank, qs.subrange(0, i as int)),
                self@.log == old(self)@.log,
                failures@.map_values(|q: QuestionId| q@) == seed_failures(
                    old(self)@.bank,
                    qs.subrange(0, i as int),
                ),
                inserted + failures@.len() == i,
                self@.bank.len() == old(self)@.bank.len() + inserted,
            decreases questions.len() - i,
        {
            proof {
                assert(qs.subrange(0, i + 1).drop_last() =~= qs.subrange(0, i as int));
                assert(qs.subrange(0, i + 1).last() == qs[i as int]);
            }
            let q = &questions[i];
            let key = q.get_id();
            match self.find_question(&key) {
                Some(_) => {
                    failures.push(key);
                    proof {
                        assert(failures@.map_values(|x: QuestionId| x@) =~= seed_failures(
                            old(self)@.bank,
                            qs.subrange(0, i + 1),
                        ));
                    }
                },
                None => {
                    self.questions.push(q.clone());
                    inserted = inserted + 1;
                    proof {
                        let prev = seeded_bank(old(self)@.bank, qs.subrange(0, i as int));
                        assert(self@.bank =~= prev.push(qs[i as int]));
                        assert forall|k: int|
                            0 <= k < self@.log.len() implies key_in_bank(
                            self@.bank,
                            #[trigger] self@.log[k].question_id,
                        ) by {
                            let w = choose|w: int|
                                0 <= w < prev.len() && prev[w].key() == self@.log[k].question_id;
                            assert(self@.bank[w].key() == self@.log[k].question_id);
                        }
                    }
                },
            }
            i = i + 1;
        }
        proof {
            assert(qs.subrange(0, qs.len() as int) =~= qs);
        }
        SeedReport { inserted, failures }
    }

    /// Rebuild the store from what a location holds.  The snapshot is
    /// rejected as `DataCorruption` when its bank keys collide, a
    /// timestamp text does not read back as a valid instant, or a row
    /// refers to a question the bank does not hold.
    pub fn load(snapshot: &Snapshot) -> (r: Result<Store, StoreError>)
        ensures
            match r {
                Ok(store) => snapshot_ok(snapshot@) && store.wf() && store@.bank == snapshot@.bank
                    && store@.log == snapshot@.rows.map_values(
                    |row: RawAnswerView| decoded_answer(row),
                ),
                Err(e) => e == StoreError::DataCorruption && !snapshot_ok(snapshot@),
            },
    {
        let ghost bank = snapshot@.bank;
        let ghost rows = snapshot@.rows;
        let n = snapshot.questions.len();
        let mut i: usize = 0;
        while i < n
            invariant
                i <= n == bank.len(),
                bank == snapshot@.bank,
                forall|a: int, b: int|
                    0 <= a < b < i ==> #[trigger] bank[a].key() != #[trigger] bank[b].key(),
            decreases n - i,
        {
            let qi = &snapshot.questions[i];
            assert(bank[i as int] == snapshot.questions@[i as int]@);
            let mut j: usize = 0;
            while j < i
                invariant
                    j <= i < n == bank.len(),
                    bank == snapshot@.bank,
                    qi@ == bank[i as int],
                    forall|a: int| 0 <= a < j ==> #[trigger] bank[a].key() != bank[i as int].key(),
                decreases i - j,
            {
                let qj = &snapshot.questions[j];
                assert(bank[j as int] == snapshot.questions@[j as int]@);
                if qj.id == qi.id && qj.topic == qi.topic {
                    assert(bank[j as int].key() == bank[i as int].key());
                    return Err(StoreError::DataCorruption);
                }
                j = j + 1;
            }
            i = i + 1;
        }
        let mut questions: Vec<Question> = Vec::new();
        let mut k: usize = 0;
        while k < snapshot.questions.len()
            invariant
                k <= snapshot.questions.len(),
                questions@.len() == k,
                forall|j: int| 0 <= j < k ==> #[trigger] questions@[j]@ == snapshot@.bank[j],
            decreases snapshot.questions.len() - k,
        {
            questions.push(snapshot.questions[k].clone());
            k = k + 1;
        }
        proof {
            assert(questions@.map_values(|q: Question| q@) =~= bank);
        }
        let mut answers: Vec<Answer> = Vec::new();
        let mut k: usize = 0;
        while k < snapshot.answers.len()
            invariant
                k <= snapshot.answers.len(),
                bank == snapshot@.bank,
                rows == snapshot@.rows,
                questions@.map_values(|q: Question| q@) == bank,
                answers@.len() == k,
                forall|j: int|
                    0 <= j < k ==> raw_decodes(#[trigger] rows[j]) && key_in_bank(
                        bank,
                        rows[j].question_id,
                    ),
                forall|j: int| 0 <= j < k ==> #[trigger] answers@[j]@ == decoded_answer(rows[j]),
            decreases snapshot.answers.len() - k,
        {
            let row = &snapshot.answers[k];
            let t = match decode_timestamp(row.timestamp.as_slice()) {
                Some(t) => t,
                None => {
                    proof {
                        if raw_decodes(rows[k as int]) {
                            let w = choose|w: Timestamp|
                                w.valid() && encoding_of(w) == rows[k as int].timestamp;
                        }
                    }
                    return Err(StoreError::DataCorruption);
                },
            };
            let mut found = false;
            let mut j: usize = 0;
            while j < questions.len() && !found
                invariant
                    j <= questions.len(),
                    questions@.map_values(|q: Question| q@) == bank,
                    k < snapshot.answers.len(),
                    rows == snapshot@.rows,
                    row@ == rows[k as int],
                    !found ==> forall|a: int|
                        0 <= a < j ==> #[trigger] bank[a].key() != rows[k as int].question_id,
                    found ==> key_in_bank(bank, rows[k as int].question_id),
                decreases questions.len() - j + if found {
                    0int
                } else {
                    1int
                },
            {
                let q = &questions[j];
                assert(bank[j as int] == questions@[j as int]@);
                if q.id == row.question_id.id && q.topic == row.question_id.topic {
                    assert(bank[j as int].key() == rows[k as int].question_id);
                    found = true;
                } else {
                    j = j + 1;
                }
            }
            if !found {
                assert(!key_in_bank(bank, rows[k as int].question_id));
                return Err(StoreError::DataCorruption);
            }
            let a = Answer {
                question_id: row.question_id.clone(),
                timestamp: t,
                content: row.content.clone(),
                correct: row.correct,
            };
            proof {
                assert(encoding_of(t) == rows[k as int].timestamp);
                let t2 = decoded_timestamp(rows[k as int]);
                assert(t2.valid() && encoding_of(t2) == rows[k as int].timestamp);
                crate::timestamp::lemma_encoding_injective(t, t2);
                assert(a@ == decoded_answer(rows[k as int]));
            }
            answers.push(a);
            k = k + 1;
        }
        let store = Store { questions, answers };
        proof {
            assert(store@.log =~= rows.map_values(|row: RawAnswerView| decoded_answer(row)));
            assert forall|i2: int| 0 <= i2 < store@.log.len() implies key_in_bank(
                store@.bank,
                #[trigger] store@.log[i2].question_id,
            ) && (#[trigger] store@.log[i2].timestamp).valid() by {
                assert(store@.log[i2] == decoded_answer(rows[i2]));
                let w = choose|w: Timestamp| w.valid() && encoding_of(w) == rows[i2].timestamp;
                assert(decoded_timestamp(rows[i2]).valid());
            }
        }
        Ok(store)
    }

    /// Initialize a location: a fresh one (no prior snapshot) is seeded
    /// from the bundled question set, an existing one is read back as it
    /// stands and is never seeded again.
    pub fn open(prior: Option<&Snapshot>, seed_questions: &Vec<Question>) -> (r: Result<
        Store,
        StoreError,
    >)
        ensures
            match prior {
                None => match r {
                    Ok(store) => store.wf() && store@.bank == init_bank(
                        None,
                        seed_questions@.map_values(|q: Question| q@),
                    ) && store@.log == Seq::<AnswerView>::empty(),
                    Err(_) => false,
                },
                Some(snap) => match r {
                    Ok(store) => snapshot_ok(snap@) && store.wf() && store@.bank == init_bank(
                        Some(snap@.bank),
                        seed_questions@.map_values(|q: Question| q@),
                    ) && store@.log == snap@.rows.map_values(
                        |row: RawAnswerView| decoded_answer(row),
                    ),
                    Err(e) => e == StoreError::DataCorruption && !snapshot_ok(snap@),
                },
            },
    {
        match prior {
            None => {
                let mut store = Store::new();
                store.seed(seed_questions);
                Ok(store)
            },
            Some(snap) => Store::load(snap),
        }
    }

    /// Whether the log holds any answer for `key`.
    fn is_attempted(&self, key: &QuestionId) -> (r: bool)
        ensures
            r == attempted(self@.log, key@),
    {
        let mut i: usize = 0;
        while i < self.answers.len()
            invariant
                i <= self.answers.len(),
                forall|j: int| 0 <= j < i ==> #[trigger] self@.log[j].question_id != key@,
            decreases self.answers.len() - i,
        {
            let a = &self.answers[i];
            if a.question_id.id == key.id && a.question_id.topic == key.topic {
                assert(self@.log[i as int].question_id == key@);
                return true;
            }
            i = i + 1;
        }
        false
    }

    /// Whether the log holds any correct answer for `key`.
    fn is_solved(&self, key: &QuestionId) -> (r: bool)
        ensures
            r == solved(self@.log, key@),
    {
        let mut i: usize = 0;
        while i < self.answers.len()
            invariant
                i <= self.answers.len(),
                forall|j: int|
                    0 <= j < i ==> !(#[trigger] self@.log[j].question_id == key@
                        && self@.log[j].correct),
            decreases self.answers.len() - i,
        {
            let a = &self.answers[i];
            if a.correct && a.question_id.id == key.id && a.question_id.topic == key.topic {
                assert(self@.log[i as int].question_id == key@ && self@.log[i as int].correct);
                return true;
            }
            i = i + 1;
        }
        false
    }

    /// Count the distinct questions of one topic that were attempted, and
    /// those among them with a correct answer.
    fn count_topic(&self, topic: &String) -> (r: (usize, usize))
        ensures
            r.0 == count_attempted(self@.bank, self@.log, topic@),
            r.1 == count_solved(self@.bank, self@.log, topic@),
            r.1 <= r.0 <= self@.bank.len(),
    {
        let mut na: usize = 0;
        let mut ns: usize = 0;
        let mut i: usize = 0;
        while i < self.questions.len()
            invariant
                i <= self.questions.len(),
                na == count_attempted(self@.bank.subrange(0, i as int), self@.log, topic@),
                ns == count_solved(self@.bank.subrange(0, i as int), self@.log, topic@),
                ns <= na <= i,
            decreases self.questions.len() - i,
        {
            proof {
                assert(self@.bank.subrange(0, i + 1).drop_last() =~= self@.bank.subrange(
                    0,
                    i as int,
                ));
                assert(self@.bank.subrange(0, i + 1).last() == self@.bank[i as int]);
            }
            let q = &self.questions[i];
            if q.topic == *topic {
                let key = q.get_id();
                if self.is_attempted(&key) {
                    na = na + 1;
                    if self.is_solved(&key) {
                        ns = ns + 1;
                    }
                    proof {
                        if solved(self@.log, self@.bank[i as int].key()) {
                            let w = choose|w: int|
                                0 <= w < self@.log.len() && self@.log[w].question_id == self@.bank[
                                    i as int
                                ].key() && self@.log[w].correct;
                            assert(attempted(self@.log, self@.bank[i as int].key()));
                        }
                    }
                } else {
                    proof {
                        if solved(self@.log, self@.bank[i as int].key()) {
                            let w = choose|w: int|
                                0 <= w < self@.log.len() && self@.log[w].question_id == self@.bank[
                                    i as int
                                ].key() && self@.log[w].correct;
                            assert(attempted(self@.log, self@.bank[i as int].key()));
                        }
                    }
                }
            }
            i = i + 1;
        }
        proof {
            assert(self@.bank.subrange(0, self@.bank.len() as int) =~= self@.bank);
        }
        (na, ns)
    }

    /// The per-topic progress report: for every topic with at least one
    /// attempted question, the count of its distinct questions with a
    /// correct answer out of the count of its distinct questions
    /// attempted.  Rows come in order of the topic's first appearance in
    /// the bank.
    pub fn by_topic(&self) -> (r: Vec<Progress>)
        ensures
            r@.map_values(|p: Progress| p@) == spec_progress_rows(self@.bank, self@.log),
            forall|j: int|
                0 <= j < r@.len() ==> (#[trigger] r@[j]@).nominator <= r@[j]@.denominator && 0 < r@[
                    j
                ]@.denominator,
    {
        let topics = self.distinct_topics();
        let ghost ts = topics@.map_values(|s: String| s@);
        let mut rows: Vec<Progress> = Vec::new();
        let mut i: usize = 0;
        while i < topics.len()
            invariant
                i <= topics.len(),
                ts == topics@.map_values(|s: String| s@),
                ts == topics_of(self@.bank),
                rows@.map_values(|p: Progress| p@) == rows_for(
                    ts.subrange(0, i as int),
                    self@.bank,
                    self@.log,
                ),
                forall|j: int|
                    0 <= j < rows@.len() ==> (#[trigger] rows@[j]@).nominator <= rows@[j]@.denominator
                        && 0 < rows@[j]@.denominator,
            decreases topics.len() - i,
        {
            proof {
                assert(ts.subrange(0, i + 1).drop_last() =~= ts.subrange(0, i as int));
                assert(ts.subrange(0, i + 1).last() == ts[i as int]);
            }
            let t = &topics[i];
            let (na, ns) = self.count_topic(t);
            if na > 0 {
                rows.push(Progress::new(t.clone(), ns as u64, na as u64));
                proof {
                    assert(rows@.map_values(|p: Progress| p@) =~= rows_for(
                        ts.subrange(0, i + 1),
                        self@.bank,
                        self@.log,
                    ));
                }
            }
            i = i + 1;
        }
        proof {
            assert(ts.subrange(0, ts.len() as int) =~= ts);
        }
        rows
    }

    /// The distinct topics of the bank, each once, in order of first
    /// appearance.
    fn distinct_topics(&self) -> (r: Vec<String>)
        ensures
            r@.map_values(|s: String| s@) == topics_of(self@.bank),
    {
        let mut out: Vec<String> = Vec::new();
        let mut i: usize = 0;
        while i < self.questions.len()
            invariant
                i <= self.questions.len(),
                out@.map_values(|s: String| s@) == topics_of(self@.bank.subrange(0, i as int)),
            decreases self.questions.len() - i,
        {
            proof {
                assert(self@.bank.subrange(0, i + 1).drop_last() =~= self@.bank.subrange(
                    0,
                    i as int,
                ));
                assert(self@.bank.subrange(0, i + 1).last() == self@.bank[i as int]);
            }
            let t = &self.questions[i].topic;
            if !contains_string(&out, t) {
                out.push(t.clone());
                proof {
                    assert(out@.map_values(|s: String| s@) =~= topics_of(
                        self@.bank.subrange(0, i + 1),
                    ));
                }
            }
            i = i + 1;
        }
        proof {
            assert(self@.bank.subrange(0, self@.bank.len() as int) =~= self@.bank);
        }
        out
    }

    /// The overall mastery row, under the sentinel topic label "Total":
    /// distinct questions with a correct answer out of distinct questions
    /// attempted, over the whole bank.  With no answers recorded it
    /// reports the defined zero-data state 0 / 0.
    pub fn overall(&self) -> (r: Progress)
        ensures
            r@.topic == "Total"@,
            r@.nominator == count_solved_all(self@.bank, self@.log),
            r@.denominator == count_attempted_all(self@.bank, self@.log),
            r@.nominator == sum_nominators(spec_progress_rows(self@.bank, self@.log)),
            r@.denominator == sum_denominators(spec_progress_rows(self@.bank, self@.log)),
            r@.nominator <= r@.denominator <= self@.bank.len(),
    {
        let n = self.questions.len();
        proof {
            assert(self@.bank.len() == n <= u64::MAX);
            lemma_overall_sums(self@.bank, self@.log);
        }
        let mut na: usize = 0;
        let mut ns: usize = 0;
        let mut i: usize = 0;
        while i < self.questions.len()
            invariant
                i <= self.questions.len(),
                na == count_attempted_all(self@.bank.subrange(0, i as int), self@.log),
                ns == count_solved_all(self@.bank.subrange(0, i as int), self@.log),
                ns <= na <= i,
            decreases self.questions.len() - i,
        {
            proof {
                assert(self@.bank.subrange(0, i + 1).drop_last() =~= self@.bank.subrange(
                    0,
                    i as int,
                ));
                assert(self@.bank.subrange(0, i + 1).last() == self@.bank[i as int]);
            }
            let key = self.questions[i].get_id();
            if self.is_attempted(&key) {
                na = na + 1;
                if self.is_solved(&key) {
                    ns = ns + 1;
                }
                proof {
                    if solved(self@.log, self@.bank[i as int].key()) {
                        let w = choose|w: int|
                            0 <= w < self@.log.len() && self@.log[w].question_id == self@.bank[
                                i as int
                            ].key() && self@.log[w].correct;
                        assert(attempted(self@.log, self@.bank[i as int].key()));
                    }
                }
            } else {
                proof {
                    if solved(self@.log, self@.bank[i as int].key()) {
                        let w = choose|w: int|
                            0 <= w < self@.log.len() && self@.log[w].question_id == self@.bank[
                                i as int
                            ].key() && self@.log[w].correct;
                        assert(attempted(self@.log, self@.bank[i as int].key()));
                    }
                }
            }
            i = i + 1;
        }
        proof {
            assert(self@.bank.subrange(0, self@.bank.len() as int) =~= self@.bank);
        }
        Progress::new("Total".to_owned(), ns as u64, na as u64)
    }
}

/// Sum of the nominators of a report's rows.
pub open spec fn sum_nominators(rows: Seq<ProgressView>) -> int
    decreases rows.len(),
{
    if rows.len() == 0 {
        0
    } else {
        sum_nominators(rows.drop_last()) + rows.last().nominator
    }
}

/// Sum of the denominators of a report's rows.
pub open spec fn sum_denominators(rows: Seq<ProgressView>) -> int
    decreases rows.len(),
{
    if rows.len() == 0 {
        0
    } else {
        sum_denominators(rows.drop_last()) + rows.last().denominator
    }
}

/// Distinct questions of `bank` attempted in `log` whose topic is listed
/// in `ts`.
pub open spec fn count_attempted_in(
    bank: Seq<QuestionView>,
    log: Seq<AnswerView>,
    ts: Seq<Seq<char>>,
) -> int
    decreases bank.len(),
{
    if bank.len() == 0 {
        0
    } else {
        count_attempted_in(bank.drop_last(), log, ts) + if ts.contains(bank.last().topic)
            && attempted(log, bank.last().key()) {
            1int
        } else {
            0int
        }
    }
}

/// Distinct questions of `bank` with a correct answer in `log` whose
/// topic is listed in `ts`.
pub open spec fn count_solved_in(
    bank: Seq<QuestionView>,
    log: Seq<AnswerView>,
    ts: Seq<Seq<char>>,
) -> int
    decreases bank.len(),
{
    if bank.len() == 0 {
        0
    } else {
        count_solved_in(bank.drop_last(), log, ts) + if ts.contains(bank.last().topic) && solved(
            log,
            bank.last().key(),
        ) {
            1int
        } else {
            0int
        }
    }
}

/// No two entries of `ts` are equal.
pub open spec fn distinct_seq(ts: Seq<Seq<char>>) -> bool {
    forall|i: int, j: int| 0 <= i < j < ts.len() ==> ts[i] != ts[j]
}

/// A solved question is an attempted one, so the two counts of one topic
/// are ordered, and both lie within the bank's size.
pub proof fn lemma_counts_ordered(bank: Seq<QuestionView>, log: Seq<AnswerView>, topic: Seq<char>)
    ensures
        0 <= count_solved(bank, log, topic) <= count_attempted(bank, log, topic) <= bank.len(),
    decreases bank.len(),
{
    if bank.len() > 0 {
        lemma_counts_ordered(bank.drop_last(), log, topic);
        if solved(log, bank.last().key()) {
            let w = choose|w: int|
                0 <= w < log.len() && log[w].question_id == bank.last().key() && log[w].correct;
            assert(attempted(log, bank.last().key()));
        }
    }
}

/// Counting inside an empty topic list counts nothing.
proof fn lemma_count_in_empty(bank: Seq<QuestionView>, log: Seq<AnswerView>)
    ensures
        count_attempted_in(bank, log, Seq::<Seq<char>>::empty()) == 0,
        count_solved_in(bank, log, Seq::<Seq<char>>::empty()) == 0,
    decreases bank.len(),
{
    if bank.len() > 0 {
        lemma_count_in_empty(bank.drop_last(), log);
    }
}

/// Listing one more topic, not listed before, adds exactly that topic's
/// counts.
proof fn lemma_count_in_extend(
    bank: Seq<QuestionView>,
    log: Seq<AnswerView>,
    ts: Seq<Seq<char>>,
    t: Seq<char>,
)
    requires
        !ts.contains(t),
    ensures
        count_attempted_in(bank, log, ts.push(t)) == count_attempted_in(bank, log, ts)
            + count_attempted(bank, log, t),
        count_solved_in(bank, log, ts.push(t)) == count_solved_in(bank, log, ts) + count_solved(
            bank,
            log,
            t,
        ),
    decreases bank.len(),
{
    if bank.len() > 0 {
        lemma_count_in_extend(bank.drop_last(), log, ts, t);
        let topic = bank.last().topic;
        assert(ts.push(t).contains(topic) <==> ts.contains(topic) || topic == t) by {
            if ts.push(t).contains(topic) {
                let w = choose|w: int| 0 <= w < ts.push(t).len() && #[trigger] ts.push(t)[w] == topic;
                if w < ts.len() {
                    assert(ts[w] == topic);
                }
            }
            if ts.contains(topic) {
                let w = choose|w: int| 0 <= w < ts.len() && #[trigger] ts[w] == topic;
                assert(ts.push(t)[w] == topic);
            }
            if topic == t {
                assert(ts.push(t)[ts.len() as int] == topic);
            }
        }
    }
}

/// Summing a report's rows over distinct topics counts each question of a
/// listed topic exactly once.
proof fn lemma_rows_sums(ts: Seq<Seq<char>>, bank: Seq<QuestionView>, log: Seq<AnswerView>)
    requires
        distinct_seq(ts),
        bank.len() <= u64::MAX,
    ensures
        sum_nominators(rows_for(ts, bank, log)) == count_solved_in(bank, log, ts),
        sum_denominators(rows_for(ts, bank, log)) == count_attempted_in(bank, log, ts),
    decreases ts.len(),
{
    if ts.len() == 0 {
        assert(ts =~= Seq::<Seq<char>>::empty());
        lemma_count_in_empty(bank, log);
    } else {
        let prefix = ts.drop_last();
        let t = ts.last();
        lemma_rows_sums(prefix, bank, log);
        assert(!prefix.contains(t)) by {
            if prefix.contains(t) {
                let w = choose|w: int| 0 <= w < prefix.len() && #[trigger] prefix[w] == t;
                assert(ts[w] == ts[ts.len() - 1]);
            }
        }
        lemma_count_in_extend(bank, log, prefix, t);
        assert(prefix.push(t) =~= ts);
        lemma_counts_ordered(bank, log, t);
        let rowsp = rows_for(prefix, bank, log);
        if count_attempted(bank, log, t) > 0 {
            let row = ProgressView {
                topic: t,
                nominator: count_solved(bank, log, t) as u64,
                denominator: count_attempted(bank, log, t) as u64,
            };
            assert(rows_for(ts, bank, log) == rowsp.push(row));
            assert(rowsp.push(row).drop_last() =~= rowsp);
            assert(row.nominator == count_solved(bank, log, t));
            assert(row.denominator == count_attempted(bank, log, t));
        } else {
            assert(rows_for(ts, bank, log) == rowsp);
            assert(count_solved(bank, log, t) == 0);
        }
    }
}

/// Every topic of the bank stands in its topic list.
proof fn lemma_topics_complete(bank: Seq<QuestionView>)
    ensures
        forall|i: int| 0 <= i < bank.len() ==> topics_of(bank).contains(#[trigger] bank[i].topic),
    decreases bank.len(),
{
    if bank.len() > 0 {
        let prefix = bank.drop_last();
        lemma_topics_complete(prefix);
        assert forall|i: int| 0 <= i < bank.len() implies topics_of(bank).contains(
            #[trigger] bank[i].topic,
        ) by {
            if i < bank.len() - 1 {
                assert(prefix[i] == bank[i]);
                assert(topics_of(prefix).contains(bank[i].topic));
                let w = choose|w: int|
                    0 <= w < topics_of(prefix).len() && #[trigger] topics_of(prefix)[w] == bank[
                        i
                    ].topic;
                if !topics_of(prefix).contains(bank.last().topic) {
                    assert(topics_of(bank)[w] == bank[i].topic);
                }
            } else {
                if topics_of(prefix).contains(bank.last().topic) {
                    let w = choose|w: int|
                        0 <= w < topics_of(prefix).len() && #[trigger] topics_of(prefix)[w]
                            == bank.last().topic;
                    assert(topics_of(bank)[w] == bank[i].topic);
                } else {
                    assert(topics_of(bank).last() == bank[i].topic);
                }
            }
        }
    }
}

/// The topic list of a bank never lists a topic twice.
proof fn lemma_topics_distinct(bank: Seq<QuestionView>)
    ensures
        distinct_seq(topics_of(bank)),
    decreases bank.len(),
{
    if bank.len() > 0 {
        let prefix = topics_of(bank.drop_last());
        lemma_topics_distinct(bank.drop_last());
        if !prefix.contains(bank.last().topic) {
            assert forall|i: int, j: int|
                0 <= i < j < topics_of(bank).len() implies topics_of(bank)[i] != topics_of(
                bank,
            )[j] by {
                if j == topics_of(bank).len() - 1 {
                    assert(prefix[i] == topics_of(bank)[i]);
                    assert(prefix.contains(prefix[i]));
                }
            }
        }
    }
}

/// Counting inside a topic list that covers the whole bank counts every
/// attempted question.
proof fn lemma_count_in_full(bank: Seq<QuestionView>, log: Seq<AnswerView>, ts: Seq<Seq<char>>)
    requires
        forall|i: int| 0 <= i < bank.len() ==> ts.contains(#[trigger] bank[i].topic),
    ensures
        count_attempted_in(bank, log, ts) == count_attempted_all(bank, log),
        count_solved_in(bank, log, ts) == count_solved_all(bank, log),
    decreases bank.len(),
{
    if bank.len() > 0 {
        assert forall|i: int| 0 <= i < bank.drop_last().len() implies ts.contains(
            #[trigger] bank.drop_last()[i].topic,
        ) by {
            assert(bank.drop_last()[i] == bank[i]);
        }
        lemma_count_in_full(bank.drop_last(), log, ts);
        assert(ts.contains(bank.last().topic));
    }
}

/// Overall sums: the column sums of the per-topic report equal the
/// all-topic counts, so the overall row adds up exactly to the report it
/// stands under.
pub proof fn lemma_overall_sums(bank: Seq<QuestionView>, log: Seq<AnswerView>)
    requires
        bank.len() <= u64::MAX,
    ensures
        sum_nominators(spec_progress_rows(bank, log)) == count_solved_all(bank, log),
        sum_denominators(spec_progress_rows(bank, log)) == count_attempted_all(bank, log),
{
    lemma_topics_distinct(bank);
    lemma_rows_sums(topics_of(bank), bank, log);
    lemma_topics_complete(bank);
    lemma_count_in_full(bank, log, topics_of(bank));
}

/// With no answers recorded at all, both overall counts are zero: the
/// defined zero-data state.
pub proof fn lemma_empty_log_counts(bank: Seq<QuestionView>)
    ensures
        count_attempted_all(bank, Seq::<AnswerView>::empty()) == 0,
        count_solved_all(bank, Seq::<AnswerView>::empty()) == 0,
    decreases bank.len(),
{
    if bank.len() > 0 {
        lemma_empty_log_counts(bank.drop_last());
    }
}

/// Appending an answer extends exactly that question's history by that
/// answer and leaves every other history alone; a question never answered
/// has an empty history.
pub proof fn lemma_append_history(log: Seq<AnswerView>, a: AnswerView, key: QuestionIdView)
    ensures
        a.question_id == key ==> spec_history(log.push(a), key) == spec_history(log, key).push(a),
        a.question_id != key ==> spec_history(log.push(a), key) == spec_history(log, key),
        spec_history(Seq::<AnswerView>::empty(), key) == Seq::<AnswerView>::empty(),
{
    assert(log.push(a).drop_last() =~= log);
}

/// Selection determinism: the candidate window is a function of the bank
/// alone, so two reads with no intervening change of the bank return the
/// same window.
pub proof fn lemma_candidates_deterministic(s1: StoreView, s2: StoreView, skip: int, count: int)
    requires
        s1.bank == s2.bank,
    ensures
        spec_window(s1.bank, skip, count) == spec_window(s2.bank, skip, count),
{
}

/// Whether some string of `v` reads the same as `t`.
fn contains_string(v: &Vec<String>, t: &String) -> (r: bool)
    ensures
        r == v@.map_values(|s: String| s@).contains(t@),
{
    let mut i: usize = 0;
    while i < v.len()
        invariant
            i <= v.len(),
            forall|j: int| 0 <= j < i ==> #[trigger] v@[j]@ != t@,
        decreases v.len() - i,
    {
        if v[i] == *t {
            assert(v@.map_values(|s: String| s@)[i as int] == t@);
            return true;
        }
        i = i + 1;
    }
    proof {
        let m = v@.map_values(|s: String| s@);
        if m.contains(t@) {
            let w = choose|w: int| 0 <= w < m.len() && #[trigger] m[w] == t@;
            assert(v@[w]@ == t@);
        }
    }
    false
}

} // verus!
