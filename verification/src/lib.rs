//! Quiz construction and session engine.
//!
//! The crate builds multiple-choice vocabulary questions from lexical data
//! (synonyms, definitions, examples) fetched by external providers, runs a
//! question/answer session, grades it, and can carry previously missed
//! questions forward into a later run.

pub mod carry;
pub mod codec;
pub mod english;
pub mod mcq;
pub mod provider;
pub mod rng;
pub mod text;
pub mod webster;
pub mod words_api;

use vstd::prelude::*;

use crate::mcq::Choice;
use crate::words_api::Details;

verus! {

/// A question that can be displayed, attempted and graded.
pub trait Question {
    type Answer;

    /// Whether the question is well-formed enough to display.
    spec fn askable(&self) -> bool;

    /// The text under which the question is displayed.
    spec fn display_of(&self) -> Seq<char>;

    /// What a raw submission parses to; `None` is no answer.
    spec fn parse_of(&self, input: Seq<char>) -> Option<Self::Answer>;

    /// The expected answer.
    spec fn expected(&self) -> Self::Answer;

    /// Display the question.
    fn ask(&self) -> (r: String)
        requires
            self.askable(),
        ensures
            r@ == self.display_of(),
    ;

    /// Parse a raw submission; an invalid or unparsable submission is no
    /// answer, not an error.
    fn attempt(&self, input: &str) -> (r: Option<Self::Answer>)
        ensures
            r == self.parse_of(input@),
    ;

    /// The expected answer.
    fn answer(&self) -> (r: Self::Answer)
        ensures
            r == self.expected(),
    ;
}

/// The kinds of quiz this crate can construct.
#[derive(Debug, Clone, Copy)]
pub enum QuizType {
    English(Details),
}

/// How a session is presented. The two modes differ only in interaction
/// timing; grading is identical.
#[derive(Debug, Clone, Copy, Default, PartialEq, Eq, Structural)]
pub enum QuizMode {
    /// Display one question at a time.
    #[default]
    Interactive,
    /// Display all questions, then collect answers.
    Batch,
}

/// The expected answers of a question list paired position by position with
/// the submissions; missing trailing submissions count as no answer.
pub open spec fn graded_pairs<Q: Question>(
    questions: Seq<Q>,
    answers: Seq<Option<Q::Answer>>,
) -> Seq<(Q::Answer, Option<Q::Answer>)> {
    Seq::new(
        questions.len(),
        |i: int|
            (
                questions[i].expected(),
                if i < answers.len() {
                    answers[i]
                } else {
                    None
                },
            ),
    )
}

/// An ordered collection of questions, asked and graded as one run.
///
/// A session starts unanswered; `start_quiz` consumes it, so a session can
/// be graded at most once, and only by an explicit answer submission.
pub struct Section<Q: Question> {
    questions: Vec<Q>,
}

impl<Q: Question> Section<Q> {
    /// The questions, in session order.
    pub closed spec fn spec_questions(&self) -> Seq<Q> {
        self.questions@
    }

    /// Build an unanswered session from already-built questions.
    pub fn new(questions: Vec<Q>) -> (r: Section<Q>)
        ensures
            r.spec_questions() == questions@,
    {
        Section { questions }
    }

    /// The questions, in session order.
    pub fn questions(&self) -> (r: &Vec<Q>)
        ensures
            r@ == self.spec_questions(),
    {
        &self.questions
    }

    /// Pair each question's expected answer with the submission at its
    /// position; missing trailing submissions are recorded as no answer.
    pub fn grade(&self, answers: Vec<Option<Q::Answer>>) -> (r: Vec<(Q::Answer, Option<Q::Answer>)>)
        ensures
            r@ == graded_pairs(self.spec_questions(), answers@),
    {
        let ghost orig = answers@;
        let mut rest = answers;
        let mut result: Vec<(Q::Answer, Option<Q::Answer>)> = Vec::new();
        let mut i: usize = 0;
        while i < self.questions.len()
            invariant
                0 <= i <= self.questions@.len(),
                result@.len() == i,
                if i <= orig.len() {
                    rest@ == orig.skip(i as int)
                } else {
                    rest@.len() == 0
                },
                forall|j: int|
                    0 <= j < i ==> #[trigger] result@[j] == (
                        self.questions@[j].expected(),
                        if j < orig.len() {
                            orig[j]
                        } else {
                            None
                        },
                    ),
            decreases self.questions@.len() - i,
        {
            let a: Option<Q::Answer> = if rest.len() > 0 {
                proof {
                    if i < orig.len() {
                        assert(rest@[0] == orig[i as int]);
                        assert(rest@.skip(1) =~= orig.skip(i as int + 1));
                    }
                }
                rest.remove(0)
            } else {
                proof {
                    if i + 1 <= orig.len() {
                        assert(orig.skip(i as int).len() == 0);
                        assert(false);
                    }
                }
                None
            };
            let q = &self.questions[i];
            result.push((q.answer(), a));
            i = i + 1;
        }
        proof {
            assert(result@ =~= graded_pairs(self.spec_questions(), orig));
        }
        result
    }

    /// Answer the session and grade it: the one-way transition from an
    /// unanswered to a graded session. The session is consumed, so the
    /// transition cannot be repeated or reversed. The presentation mode does
    /// not affect grading.
    pub fn start_quiz(
        self,
        mode: QuizMode,
        submissions: Vec<Option<Q::Answer>>,
        start_ms: u64,
        end_ms: u64,
    ) -> (r: GradeReport<Q::Answer>)
        ensures
            r.spec_pairs() == graded_pairs(self.spec_questions(), submissions@),
            r.spec_start_ms() == start_ms,
            r.spec_end_ms() == end_ms,
    {
        let _ = mode;
        let graded = self.grade(submissions);
        GradeReport::new(start_ms, end_ms, graded)
    }
}

/// The graded outcome of a session: start and end timestamps (in
/// milliseconds) and the ordered (expected, submitted-or-none) pairs, one
/// per question, in session order.
pub struct GradeReport<T> {
    start_ms: u64,
    end_ms: u64,
    graded_answers: Vec<(T, Option<T>)>,
}

impl<T> GradeReport<T> {
    /// When the session was first displayed, in milliseconds.
    pub closed spec fn spec_start_ms(&self) -> u64 {
        self.start_ms
    }

    /// When the last submission was collected, in milliseconds.
    pub closed spec fn spec_end_ms(&self) -> u64 {
        self.end_ms
    }

    /// The (expected, submitted-or-none) pairs, in session order.
    pub closed spec fn spec_pairs(&self) -> Seq<(T, Option<T>)> {
        self.graded_answers@
    }

    /// Build a report from the graded pairs and the session's time span.
    pub fn new(start_ms: u64, end_ms: u64, graded_answers: Vec<(T, Option<T>)>) -> (r: Self)
        ensures
            r.spec_start_ms() == start_ms,
            r.spec_end_ms() == end_ms,
            r.spec_pairs() == graded_answers@,
    {
        GradeReport { start_ms, end_ms, graded_answers }
    }

    /// The (expected, submitted-or-none) pairs, in session order.
    pub fn pairs(&self) -> (r: &Vec<(T, Option<T>)>)
        ensures
            r@ == self.spec_pairs(),
    {
        &self.graded_answers
    }

    /// When the session was first displayed, in milliseconds.
    pub fn start_ms(&self) -> (r: u64)
        ensures
            r == self.spec_start_ms(),
    {
        self.start_ms
    }

    /// When the last submission was collected, in milliseconds.
    pub fn end_ms(&self) -> (r: u64)
        ensures
            r == self.spec_end_ms(),
    {
        self.end_ms
    }

    /// The elapsed time of the session, from first display to last
    /// collected submission.
    pub fn elapsed_ms(&self) -> (r: u64)
        ensures
            r == if self.spec_end_ms() >= self.spec_start_ms() {
                self.spec_end_ms() - self.spec_start_ms()
            } else {
                0
            },
    {
        if self.end_ms >= self.start_ms {
            self.end_ms - self.start_ms
        } else {
            0
        }
    }
}

impl Section<crate::mcq::Mcq> {
    /// The stable byte form of the session's question list, as carry-forward
    /// reloads it.
    pub fn to_bytes(&self) -> (r: Vec<u8>)
        requires
            forall|i: int|
                0 <= i < self.spec_questions().len() ==> (#[trigger] self.spec_questions()[i]).wf(),
        ensures
            r@ == crate::codec::encode_questions_spec(
                Seq::new(self.spec_questions().len(), |i: int| self.spec_questions()[i]@),
            ),
    {
        let r = crate::codec::encode_questions(&self.questions);
        proof {
            assert(self.questions.deep_view() =~= Seq::new(
                self.spec_questions().len(),
                |i: int| self.spec_questions()[i]@,
            ));
        }
        r
    }
}

impl GradeReport<Choice> {
    /// The stable byte form of the graded pairs, as carry-forward reloads
    /// them.
    pub fn to_bytes(&self) -> (r: Vec<u8>)
        ensures
            r@ == crate::codec::encode_pairs_spec(self.spec_pairs()),
    {
        crate::codec::encode_pairs(&self.graded_answers)
    }
}

/// A submission counts correct only if it is present and equal to the
/// expected answer.
pub open spec fn is_correct(p: (Choice, Option<Choice>)) -> bool {
    p.1 == Some(p.0)
}

/// How many pairs were answered correctly.
pub open spec fn correct_count(pairs: Seq<(Choice, Option<Choice>)>) -> nat
    decreases pairs.len(),
{
    if pairs.len() == 0 {
        0
    } else {
        correct_count(pairs.drop_last()) + if is_correct(pairs.last()) {
            1nat
        } else {
            0nat
        }
    }
}

/// The score in tenths of a percent: `correct / total * 100`, rounded down
/// to a tenth, and zero for an empty report (no division by zero).
pub open spec fn score_permille(pairs: Seq<(Choice, Option<Choice>)>) -> int {
    if pairs.len() == 0 {
        0
    } else {
        (correct_count(pairs) as int) * 1000 / (pairs.len() as int)
    }
}

proof fn lemma_correct_count_le_len(pairs: Seq<(Choice, Option<Choice>)>)
    ensures
        correct_count(pairs) <= pairs.len(),
    decreases pairs.len(),
{
    if pairs.len() > 0 {
        lemma_correct_count_le_len(pairs.drop_last());
    }
}

impl GradeReport<Choice> {
    /// The score of the report, in tenths of a percent.
    pub fn calculate_score(&self) -> (r: u64)
        ensures
            r == score_permille(self.spec_pairs()),
    {
        let ghost pairs = self.graded_answers@;
        let total = self.graded_answers.len();
        if total == 0 {
            return 0;
        }
        let mut count: usize = 0;
        let mut i: usize = 0;
        proof {
            assert(pairs.take(0) =~= Seq::<(Choice, Option<Choice>)>::empty());
        }
        while i < self.graded_answers.len()
            invariant
                0 <= i <= pairs.len(),
                pairs == self.graded_answers@,
                count <= i,
                count == correct_count(pairs.take(i as int)),
            decreases pairs.len() - i,
        {
            proof {
                let cur = pairs.take(i as int + 1);
                assert(cur.drop_last() =~= pairs.take(i as int));
                assert(cur.last() == pairs[i as int]);
            }
            let p = &self.graded_answers[i];
            let correct = match p.1 {
                Some(sub) => sub == p.0,
                None => false,
            };
            if correct {
                count = count + 1;
            }
            i = i + 1;
        }
        proof {
            assert(pairs.take(pairs.len() as int) =~= pairs);
            lemma_correct_count_le_len(pairs);
            vstd::arithmetic::mul::lemma_mul_inequality(count as int, total as int, 1000);
            vstd::arithmetic::mul::lemma_mul_inequality(total as int, u64::MAX as int, 1000);
            vstd::arithmetic::div_mod::lemma_div_by_multiple(1000, total as int);
            vstd::arithmetic::div_mod::lemma_div_is_ordered(
                (count as int) * 1000,
                (total as int) * 1000,
                total as int,
            );
            assert((total as int) * 1000 == 1000 * (total as int)) by (nonlinear_arith);
        }
        let score = (count as u128 * 1000) / (total as u128);
        score as u64
    }
}

/// The score is all points exactly when every submission is present and
/// matches its expected answer, for a non-empty report.
pub proof fn lemma_score_all_correct(pairs: Seq<(Choice, Option<Choice>)>)
    requires
        pairs.len() > 0,
        forall|i: int| 0 <= i < pairs.len() ==> is_correct(#[trigger] pairs[i]),
    ensures
        score_permille(pairs) == 1000,
    decreases pairs.len(),
{
    lemma_correct_count_all(pairs);
    assert((pairs.len() as int) * 1000 / (pairs.len() as int) == 1000) by (nonlinear_arith)
        requires
            pairs.len() > 0,
    ;
}

proof fn lemma_correct_count_all(pairs: Seq<(Choice, Option<Choice>)>)
    requires
        forall|i: int| 0 <= i < pairs.len() ==> is_correct(#[trigger] pairs[i]),
    ensures
        correct_count(pairs) == pairs.len(),
    decreases pairs.len(),
{
    if pairs.len() > 0 {
        lemma_correct_count_all(pairs.drop_last());
    }
}

/// The score is zero when no submission is present.
pub proof fn lemma_score_none_submitted(pairs: Seq<(Choice, Option<Choice>)>)
    requires
        forall|i: int| 0 <= i < pairs.len() ==> (#[trigger] pairs[i]).1 is None,
    ensures
        score_permille(pairs) == 0,
    decreases pairs.len(),
{
    lemma_correct_count_none(pairs);
}

proof fn lemma_correct_count_none(pairs: Seq<(Choice, Option<Choice>)>)
    requires
        forall|i: int| 0 <= i < pairs.len() ==> (#[trigger] pairs[i]).1 is None,
    ensures
        correct_count(pairs) == 0,
    decreases pairs.len(),
{
    if pairs.len() > 0 {
        lemma_correct_count_none(pairs.drop_last());
    }
}

/// The score of an empty session is zero: there is no division by zero.
pub proof fn lemma_score_empty(pairs: Seq<(Choice, Option<Choice>)>)
    requires
        pairs.len() == 0,
    ensures
        score_permille(pairs) == 0,
{
}

} // verus!
