//! The English vocabulary quiz: the word pool and the question builder.

use vstd::prelude::*;

use crate::mcq::{choice_ord, Choice, Mcq};
use crate::rng::{random_below, shuffle};
use crate::text::{folded_eq, folded_eq_exec, str_eq, trim, trim_spec};
use crate::words_api::{DefinitionResponse, Details, ExampleResponse, SynonymResponse};

verus! {

/// The error taxonomy of a quiz run.
///
/// A `DataError` means one word's lexical data failed an invariant; the
/// caller discards the word and tries another. An `ApiError` means every
/// provider failed a lookup and the run aborts. A `FileError` is a failure
/// around persisted state.
#[derive(Debug, Clone, PartialEq)]
pub enum EnglishQuizError {
    ApiError(String),
    DataError,
    FileError(String),
}

/// Whether an error aborts the whole run. A `DataError` is recoverable:
/// the caller discards the word at hand and selects another. Everything
/// else — a provider outage, unreadable persisted state — is fatal.
pub fn error_is_fatal(e: &EnglishQuizError) -> (r: bool)
    ensures
        r == !(e is DataError),
{
    !(matches!(e, EnglishQuizError::DataError))
}

/// The number of unselected entries in a pool's selection markers.
pub open spec fn avail(sel: Seq<bool>) -> nat
    decreases sel.len(),
{
    if sel.len() == 0 {
        0
    } else {
        avail(sel.drop_last()) + if sel.last() {
            0nat
        } else {
            1nat
        }
    }
}

proof fn lemma_avail_update_true(sel: Seq<bool>, i: int)
    requires
        0 <= i < sel.len(),
        !sel[i],
    ensures
        avail(sel.update(i, true)) == avail(sel) - 1,
        avail(sel) >= 1,
    decreases sel.len(),
{
    if i == sel.len() - 1 {
        assert(sel.update(i, true).drop_last() =~= sel.drop_last());
    } else {
        assert(sel.update(i, true).drop_last() =~= sel.drop_last().update(i, true));
        lemma_avail_update_true(sel.drop_last(), i);
    }
}

/// The input lines as pool words: each line trimmed, blank lines dropped,
/// and only the first occurrence of each word kept.
pub open spec fn normalize_lines(lines: Seq<Seq<char>>) -> Seq<Seq<char>>
    decreases lines.len(),
{
    if lines.len() == 0 {
        Seq::empty()
    } else {
        let prev = normalize_lines(lines.drop_last());
        let t = trim_spec(lines.last());
        if t.len() > 0 && !prev.contains(t) {
            prev.push(t)
        } else {
            prev
        }
    }
}

/// Whether some entry of `v` holds the characters of `s`.
fn contains_view(v: &Vec<String>, s: &String) -> (r: bool)
    ensures
        r == v.deep_view().contains(s@),
{
    let mut i: usize = 0;
    while i < v.len()
        invariant
            0 <= i <= v@.len(),
            forall|j: int| 0 <= j < i ==> v.deep_view()[j] != s@,
        decreases v@.len() - i,
    {
        if str_eq(v[i].as_str(), s.as_str()) {
            proof {
                assert(v.deep_view()[i as int] == s@);
            }
            return true;
        }
        i = i + 1;
    }
    false
}

/// The quiz state: the word pool with its selection markers, and the
/// configured quiz kind that drives statement generation.
pub struct EnglishQuiz {
    kind: Details,
    words: Vec<String>,
    selected: Vec<bool>,
}

impl EnglishQuiz {
    /// The pool words, in pool order.
    pub closed spec fn spec_words(&self) -> Seq<Seq<char>> {
        self.words.deep_view()
    }

    /// The parallel markers: `true` where the word was already offered.
    pub closed spec fn spec_selected(&self) -> Seq<bool> {
        self.selected@
    }

    /// The configured quiz kind.
    pub closed spec fn spec_kind(&self) -> Details {
        self.kind
    }

    /// The pool invariant: one marker per word, and distinct words.
    pub open spec fn wf(&self) -> bool {
        &&& self.spec_words().len() == self.spec_selected().len()
        &&& self.spec_words().no_duplicates()
    }

    /// Build the pool from the lines of a word-list source. Lines are
    /// trimmed, blank lines are dropped, duplicates are kept once; nothing
    /// starts out selected.
    pub fn new(lines: Vec<String>, kind: Details) -> (r: EnglishQuiz)
        ensures
            r.wf(),
            r.spec_kind() == kind,
            r.spec_words() == normalize_lines(lines.deep_view()),
            r.spec_selected().len() == r.spec_words().len(),
            forall|i: int| 0 <= i < r.spec_selected().len() ==> !r.spec_selected()[i],
    {
        let mut words: Vec<String> = Vec::new();
        let mut selected: Vec<bool> = Vec::new();
        let mut i: usize = 0;
        proof {
            assert(lines.deep_view().take(0) =~= Seq::<Seq<char>>::empty());
        }
        while i < lines.len()
            invariant
                0 <= i <= lines@.len(),
                words.deep_view() == normalize_lines(lines.deep_view().take(i as int)),
                words.deep_view().no_duplicates(),
                selected@.len() == words@.len(),
                forall|j: int| 0 <= j < selected@.len() ==> !selected@[j],
            decreases lines@.len() - i,
        {
            let t = trim(lines[i].as_str());
            proof {
                let pre = lines.deep_view().take(i as int);
                let cur = lines.deep_view().take(i as int + 1);
                assert(cur.drop_last() =~= pre);
                assert(cur.last() == lines.deep_view()[i as int]);
            }
            if !t.as_str().is_empty() && !contains_view(&words, &t) {
                let ghost pre_dv = words.deep_view();
                let ghost tv = t@;
                words.push(t);
                selected.push(false);
                proof {
                    assert(words.deep_view() =~= pre_dv.push(tv));
                    assert forall|a: int, b: int|
                        0 <= a < b < pre_dv.push(tv).len() implies pre_dv.push(tv)[a] != pre_dv.push(
                        tv,
                    )[b] by {
                        if b < pre_dv.len() {
                        } else {
                            assert(pre_dv.contains(pre_dv[a]));
                        }
                    }
                }
            }
            i = i + 1;
        }
        proof {
            assert(lines.deep_view().take(lines@.len() as int) =~= lines.deep_view());
        }
        EnglishQuiz { kind, words, selected }
    }

    /// How many words are still available for selection.
    pub fn available_words(&self) -> (r: usize)
        ensures
            r == avail(self.spec_selected()),
    {
        let mut count: usize = 0;
        let mut i: usize = 0;
        proof {
            assert(self.selected@.take(0) =~= Seq::<bool>::empty());
        }
        while i < self.selected.len()
            invariant
                0 <= i <= self.selected@.len(),
                count <= i,
                count == avail(self.selected@.take(i as int)),
            decreases self.selected@.len() - i,
        {
            proof {
                let cur = self.selected@.take(i as int + 1);
                assert(cur.drop_last() =~= self.selected@.take(i as int));
                assert(cur.last() == self.selected@[i as int]);
            }
            if !self.selected[i] {
                count = count + 1;
            }
            i = i + 1;
        }
        proof {
            assert(self.selected@.take(self.selected@.len() as int) =~= self.selected@);
        }
        count
    }

    /// Select one word uniformly at random among the not-yet-selected words
    /// and mark it as offered; fails with `DataError` exactly when the pool
    /// is exhausted. Across a run no word is offered twice.
    pub fn select_word(&mut self) -> (r: Result<String, EnglishQuizError>)
        requires
            old(self).wf(),
        ensures
            final(self).wf(),
            final(self).spec_words() == old(self).spec_words(),
            final(self).spec_kind() == old(self).spec_kind(),
            match r {
                Ok(w) => {
                    &&& avail(old(self).spec_selected()) >= 1
                    &&& select_step(*old(self), *final(self), w@)
                    &&& avail(final(self).spec_selected()) == avail(old(self).spec_selected()) - 1
                },
                Err(e) => {
                    &&& e is DataError
                    &&& avail(old(self).spec_selected()) == 0
                    &&& *final(self) == *old(self)
                },
            },
    {
        let n = self.available_words();
        if n == 0 {
            return Err(EnglishQuizError::DataError);
        }
        let k = crate::rng::random_below(n);
        let mut c: usize = 0;
        let mut j: usize = 0;
        proof {
            assert(self.selected@.take(0) =~= Seq::<bool>::empty());
        }
        while j < self.selected.len()
            invariant
                0 <= j <= self.selected@.len(),
                self.wf(),
                c == avail(self.selected@.take(j as int)),
                c <= k,
                k < avail(self.selected@),
                self == old(self),
            decreases self.selected@.len() - j,
        {
            proof {
                let cur = self.selected@.take(j as int + 1);
                assert(cur.drop_last() =~= self.selected@.take(j as int));
                assert(cur.last() == self.selected@[j as int]);
            }
            if !self.selected[j] {
                if c == k {
                    let w = self.words[j].clone();
                    self.selected.set(j, true);
                    proof {
                        lemma_avail_update_true(old(self).spec_selected(), j as int);
                        assert(select_step_at(*old(self), *self, w@, j as int));
                    }
                    return Ok(w);
                }
                c = c + 1;
            }
            j = j + 1;
        }
        proof {
            assert(self.selected@.take(self.selected@.len() as int) =~= self.selected@);
            assert(false);
        }
        Err(EnglishQuizError::DataError)
    }

    /// Build the four choice texts for a target word out of its synonym
    /// list: distractors are the distinct synonyms that are not the target
    /// itself (up to whitespace and case), three are drawn at random, the
    /// target is added, and the result is shuffled. Fails with `DataError`
    /// exactly when fewer than three usable distractors exist.
    fn generate_choices(&self, word: &str, synonyms: &Vec<String>) -> (r: Result<
        Vec<String>,
        EnglishQuizError,
    >)
        ensures
            r is Ok <==> usable_set(synonyms.deep_view(), word@).len() >= 3,
            match r {
                Ok(c) => choices_ok(c.deep_view(), synonyms.deep_view(), word@),
                Err(e) => e is DataError,
            },
    {
        broadcast use vstd::seq_lib::group_to_multiset_ensures;

        let ghost w = word@;
        let ghost syns = synonyms.deep_view();
        let mut filtered: Vec<String> = Vec::new();
        let mut i: usize = 0;
        proof {
            assert(syns.take(0) =~= Seq::<Seq<char>>::empty());
        }
        while i < synonyms.len()
            invariant
                0 <= i <= synonyms@.len(),
                syns == synonyms.deep_view(),
                w == word@,
                filtered.deep_view().no_duplicates(),
                forall|j: int|
                    0 <= j < filtered.deep_view().len() ==> usable_set(
                        syns.take(i as int),
                        w,
                    ).contains(#[trigger] filtered.deep_view()[j]),
                forall|x: Seq<char>|
                    usable_set(syns.take(i as int), w).contains(x)
                        ==> filtered.deep_view().contains(x),
            decreases synonyms@.len() - i,
        {
            let ghost prev_set = usable_set(syns.take(i as int), w);
            let ghost cur_set = usable_set(syns.take(i as int + 1), w);
            let s = &synonyms[i];
            proof {
                let cur = syns.take(i as int + 1);
                assert(cur.drop_last() =~= syns.take(i as int));
                assert(cur.last() == syns[i as int]);
                assert(s@ == syns[i as int]);
                assert(cur_set == if !folded_eq(cur.last(), w) {
                    usable_set(cur.drop_last(), w).insert(cur.last())
                } else {
                    usable_set(cur.drop_last(), w)
                });
            }
            if !folded_eq_exec(s.as_str(), word) {
                proof {
                    let cur = syns.take(i as int + 1);
                    assert(!folded_eq(s@, w));
                    assert(cur.last() == s@);
                    assert(!folded_eq(cur.last(), w));
                    assert(cur_set == usable_set(cur.drop_last(), w).insert(cur.last()));
                    assert(usable_set(cur.drop_last(), w) == prev_set);
                    assert(cur_set == prev_set.insert(s@));
                }
                if !contains_view(&filtered, s) {
                    let ghost pre_dv = filtered.deep_view();
                    filtered.push(s.clone());
                    proof {
                        assert(filtered.deep_view() =~= pre_dv.push(s@));
                        let new_dv = pre_dv.push(s@);
                        assert forall|a: int, b: int|
                            0 <= a < b < new_dv.len() implies new_dv[a] != new_dv[b] by {
                            if b < pre_dv.len() {
                            } else {
                                assert(pre_dv.contains(pre_dv[a]));
                            }
                        }
                        assert forall|j: int| 0 <= j < new_dv.len() implies cur_set.contains(
                            #[trigger] new_dv[j],
                        ) by {
                            if j < pre_dv.len() {
                                assert(prev_set.contains(pre_dv[j]));
                            }
                        }
                        assert forall|x: Seq<char>| cur_set.contains(x) implies new_dv.contains(
                            x,
                        ) by {
                            if x == s@ {
                                assert(new_dv[new_dv.len() - 1] == x);
                            } else {
                                assert(prev_set.contains(x));
                                assert(pre_dv.contains(x));
                                let m = choose|m: int|
                                    0 <= m < pre_dv.len() && pre_dv[m] == x;
                                assert(new_dv[m] == x);
                            }
                        }
                    }
                } else {
                    proof {
                        let dv = filtered.deep_view();
                        assert forall|x: Seq<char>| cur_set.contains(x) implies dv.contains(x) by {
                            if x == s@ {
                            } else {
                                assert(prev_set.contains(x));
                            }
                        }
                        assert forall|j: int| 0 <= j < dv.len() implies cur_set.contains(
                            #[trigger] dv[j],
                        ) by {
                            assert(prev_set.contains(dv[j]));
                        }
                    }
                }
            } else {
                proof {
                    let cur = syns.take(i as int + 1);
                    assert(folded_eq(cur.last(), w));
                    assert(cur_set == usable_set(cur.drop_last(), w));
                    assert(cur_set == prev_set);
                }
            }
            i = i + 1;
        }
        proof {
            assert(syns.take(synonyms@.len() as int) =~= syns);
            filtered.deep_view().unique_seq_to_set();
            assert(filtered.deep_view().to_set() =~= usable_set(syns, w));
        }
        if filtered.len() < 3 {
            return Err(EnglishQuizError::DataError);
        }
        let ghost stage0 = filtered.deep_view();
        shuffle(&mut filtered);
        proof {
            lemma_permutation_keeps(stage0, filtered.deep_view());
            assert forall|j: int| 0 <= j < filtered.deep_view().len() implies usable_set(
                syns,
                w,
            ).contains(#[trigger] filtered.deep_view()[j]) by {
                assert(stage0.contains(filtered.deep_view()[j]));
                let m = choose|m: int|
                    0 <= m < stage0.len() && stage0[m] == filtered.deep_view()[j];
                assert(usable_set(syns, w).contains(stage0[m]));
            }
        }
        let ghost stage1 = filtered.deep_view();
        filtered.truncate(3);
        proof {
            assert(filtered.deep_view() =~= stage1.take(3));
            assert forall|a: int, b: int|
                0 <= a < b < stage1.take(3).len() implies stage1.take(3)[a] != stage1.take(
                3,
            )[b] by {
                assert(stage1[a] != stage1[b]);
            }
        }
        let ghost stage2 = filtered.deep_view();
        filtered.push(word.to_owned());
        proof {
            assert(filtered.deep_view() =~= stage2.push(w));
            assert forall|a: int, b: int|
                0 <= a < b < stage2.push(w).len() implies stage2.push(w)[a] != stage2.push(
                w,
            )[b] by {
                if b == stage2.len() {
                    assert(usable_set(syns, w).contains(stage2[a]));
                    lemma_usable_set_sound(syns, w, stage2[a]);
                }
            }
        }
        let ghost stage3 = filtered.deep_view();
        shuffle(&mut filtered);
        proof {
            lemma_permutation_keeps(stage3, filtered.deep_view());
            let c = filtered.deep_view();
            assert(stage3.contains(w)) by {
                assert(stage3[stage3.len() - 1] == w);
            }
            assert(c.contains(w));
            assert forall|j: int| 0 <= j < c.len() implies c[j] == w || usable_set(
                syns,
                w,
            ).contains(#[trigger] c[j]) by {
                assert(stage3.contains(c[j]));
                let k = choose|k: int| 0 <= k < stage3.len() && stage3[k] == c[j];
                if k < stage3.len() - 1 {
                    assert(usable_set(syns, w).contains(stage2[k]));
                }
            }
            assert forall|j: int| 0 <= j < c.len() implies (folded_eq(#[trigger] c[j], w) <==> c[j]
                == w) by {
                if c[j] != w {
                    assert(usable_set(syns, w).contains(c[j]));
                    lemma_usable_set_sound(syns, w, c[j]);
                }
            }
        }
        Ok(filtered)
    }

    /// Build one multiple-choice question for a target word out of its
    /// synonym list and the fetched statement attribute. Fails with
    /// `DataError` exactly when the statement list is empty, the providers
    /// resolved different words than the target (cross-provider identity
    /// check), or fewer than three usable distractors exist. On success the
    /// choice-list invariants hold: four pairwise-distinct texts, and the
    /// solution ordinal is the one choice that is the target word.
    pub fn generate_mcq(
        &self,
        word: &str,
        synonyms_resp: &SynonymResponse,
        statement_resp: &StatementSource,
    ) -> (r: Result<Mcq, EnglishQuizError>)
        requires
            source_matches_kind(self.spec_kind(), *statement_resp),
        ensures
            r is Ok <==> ({
                &&& statement_resp.spec_texts().len() > 0
                &&& synonyms_resp.word@ == word@
                &&& synonyms_resp.word@ == statement_resp.spec_word()
                &&& usable_set(synonyms_resp.synonyms.deep_view(), word@).len() >= 3
            }),
            match r {
                Ok(m) => {
                    &&& m.wf()
                    &&& statement_resp.spec_texts().contains(m.spec_statement())
                    &&& choices_ok(m.spec_choices(), synonyms_resp.synonyms.deep_view(), word@)
                    &&& 0 <= choice_ord(m.spec_solution()) < 4
                    &&& m.spec_choices()[choice_ord(m.spec_solution())] == word@
                    &&& forall|i: int|
                        0 <= i < 4 ==> (folded_eq(#[trigger] m.spec_choices()[i], word@) <==> i
                            == choice_ord(m.spec_solution()))
                },
                Err(e) => e is DataError,
            },
    {
        let texts_len = match statement_resp {
            StatementSource::Examples(e) => e.examples.len(),
            StatementSource::Definitions(d) => d.definitions.len(),
        };
        if texts_len == 0 {
            return Err(EnglishQuizError::DataError);
        }
        if !str_eq(synonyms_resp.word.as_str(), word) {
            return Err(EnglishQuizError::DataError);
        }
        let src_word = match statement_resp {
            StatementSource::Examples(e) => &e.word,
            StatementSource::Definitions(d) => &d.word,
        };
        if !str_eq(synonyms_resp.word.as_str(), src_word.as_str()) {
            return Err(EnglishQuizError::DataError);
        }
        let choices = match self.generate_choices(word, &synonyms_resp.synonyms) {
            Ok(c) => c,
            Err(e) => { return Err(e) },
        };
        let statement = match statement_resp {
            StatementSource::Examples(e) => {
                let k = random_below(e.examples.len());
                let st = e.examples[k].clone();
                proof {
                    assert(statement_resp.spec_texts()[k as int] == st@);
                }
                st
            },
            StatementSource::Definitions(d) => {
                let k = random_below(d.definitions.len());
                let st = d.definitions[k].definition.clone();
                proof {
                    assert(statement_resp.spec_texts()[k as int] == st@);
                }
                st
            },
        };
        proof {
            assert(statement_resp.spec_texts().contains(statement@));
        }
        let sol_idx = target_index(&choices, word);
        let solution = match Choice::try_from(sol_idx) {
            Some(c) => c,
            None => {
                proof {
                    assert(false);
                }
                Choice::A
            },
        };
        let ghost cdv = choices.deep_view();
        let ghost w = word@;
        let m = Mcq::new(statement, choices, solution);
        proof {
            assert forall|i: int| 0 <= i < 4 implies (folded_eq(#[trigger] cdv[i], w) <==> i
                == choice_ord(solution)) by {
                if folded_eq(cdv[i], w) && i != choice_ord(solution) {
                    assert(cdv[i] == w);
                    assert(cdv[choice_ord(solution)] == w);
                }
            }
        }
        Ok(m)
    }

    /// Build one multiple-choice question with pool-word distractors: the
    /// statement comes from the fetched attribute values — joined together
    /// for a synonym or antonym quiz, one picked at random for a definition
    /// or example quiz — and three other pool words are drawn at random,
    /// without replacement and consuming them from the pool, as
    /// distractors; the target is inserted at a random ordinal, which is
    /// the solution. Fails with `DataError` exactly when the values fall
    /// short of what the kind requires (three for a joined statement, one
    /// for a picked one) or the pool cannot supply three usable
    /// distractors.
    pub fn generate_pool_mcq(&mut self, word: &str, values: &Vec<String>) -> (r: Result<
        Mcq,
        EnglishQuizError,
    >)
        requires
            old(self).wf(),
        ensures
            final(self).wf(),
            final(self).spec_words() == old(self).spec_words(),
            final(self).spec_kind() == old(self).spec_kind(),
            forall|i: int|
                0 <= i < old(self).spec_selected().len() && old(self).spec_selected()[i]
                    ==> final(self).spec_selected()[i],
            r is Ok <==> ({
                &&& values@.len() >= (if list_joined_kind(old(self).spec_kind()) {
                    3int
                } else {
                    1int
                })
                &&& usable_pool(old(self).spec_words(), old(self).spec_selected(), word@) >= 3
            }),
            match r {
                Ok(m) => {
                    &&& m.wf()
                    &&& 0 <= choice_ord(m.spec_solution()) < 4
                    &&& m.spec_choices()[choice_ord(m.spec_solution())] == word@
                    &&& forall|i: int|
                        0 <= i < 4 ==> (folded_eq(#[trigger] m.spec_choices()[i], word@) <==> i
                            == choice_ord(m.spec_solution()))
                    &&& forall|i: int|
                        0 <= i < 4 ==> (i == choice_ord(m.spec_solution()) || old(
                            self,
                        ).spec_words().contains(#[trigger] m.spec_choices()[i]))
                    &&& (if list_joined_kind(old(self).spec_kind()) {
                        m.spec_statement() == joined(values.deep_view())
                    } else {
                        values.deep_view().contains(m.spec_statement())
                    })
                },
                Err(e) => e is DataError,
            },
    {
        let list_kind = match self.kind {
            Details::Synonyms | Details::Antonyms => true,
            Details::Definitions | Details::Examples => false,
        };
        let need: usize = if list_kind {
            3
        } else {
            1
        };
        if values.len() < need {
            return Err(EnglishQuizError::DataError);
        }
        let ghost w = word@;
        let ghost usable0 = usable_pool(self.spec_words(), self.spec_selected(), w);
        let mut distractors: Vec<String> = Vec::new();
        while distractors.len() < 3
            invariant
                w == word@,
                self.wf(),
                self.spec_words() == old(self).spec_words(),
                self.spec_kind() == old(self).spec_kind(),
                self.spec_selected().len() == old(self).spec_selected().len(),
                forall|i: int|
                    0 <= i < old(self).spec_selected().len() && old(self).spec_selected()[i]
                        ==> self.spec_selected()[i],
                usable0 == usable_pool(old(self).spec_words(), old(self).spec_selected(), w),
                distractors@.len() <= 3,
                distractors.deep_view().no_duplicates(),
                forall|j: int|
                    0 <= j < distractors.deep_view().len() ==> !folded_eq(
                        #[trigger] distractors.deep_view()[j],
                        w,
                    ),
                forall|j: int|
                    0 <= j < distractors.deep_view().len() ==> drawn_marked(
                        *self,
                        #[trigger] distractors.deep_view()[j],
                    ),
                usable_pool(self.spec_words(), self.spec_selected(), w) + distractors@.len()
                    == usable0,
            decreases avail(self.spec_selected()),
        {
            let ghost pre = *self;
            let drawn = match self.select_word() {
                Ok(d) => d,
                Err(_) => {
                    proof {
                        lemma_usable_pool_le_avail(pre.spec_words(), pre.spec_selected(), w);
                    }
                    return Err(EnglishQuizError::DataError);
                },
            };
            let ghost i = choose|i: int| select_step_at(pre, *self, drawn@, i);
            proof {
                assert(select_step_at(pre, *self, drawn@, i));
                lemma_usable_pool_update(pre.spec_words(), pre.spec_selected(), w, i);
                assert forall|i2: int|
                    0 <= i2 < old(self).spec_selected().len() && old(
                        self,
                    ).spec_selected()[i2] implies self.spec_selected()[i2] by {
                    assert(pre.spec_selected()[i2]);
                }
                assert forall|j: int| 0 <= j < distractors.deep_view().len() implies drawn_marked(
                    *self,
                    #[trigger] distractors.deep_view()[j],
                ) by {
                    let ghost jj = choose|jj: int|
                        0 <= jj < pre.spec_words().len() && pre.spec_words()[jj]
                            == distractors.deep_view()[j] && (#[trigger] pre.spec_selected()[jj]);
                    assert(self.spec_selected()[jj]);
                }
            }
            if folded_eq_exec(drawn.as_str(), word) {
                proof {
                    assert(usable_pool(self.spec_words(), self.spec_selected(), w)
                        + distractors@.len() == usable0);
                }
            } else {
                let ghost pre_dv = distractors.deep_view();
                proof {
                    assert forall|j: int| 0 <= j < pre_dv.len() implies pre_dv[j] != drawn@ by {
                        let ghost jj = choose|jj: int|
                            0 <= jj < pre.spec_words().len() && pre.spec_words()[jj] == pre_dv[j]
                                && (#[trigger] pre.spec_selected()[jj]);
                        assert(jj != i);
                    }
                }
                distractors.push(drawn);
                proof {
                    assert(distractors.deep_view() =~= pre_dv.push(drawn@));
                    assert forall|a: int, b: int|
                        0 <= a < b < pre_dv.push(drawn@).len() implies pre_dv.push(drawn@)[a]
                        != pre_dv.push(drawn@)[b] by {
                        if b < pre_dv.len() {
                        }
                    }
                    assert(drawn_marked(*self, drawn@)) by {
                        assert(self.spec_words()[i] == drawn@ && self.spec_selected()[i]);
                    }
                }
            }
        }
        let statement = if list_kind {
            join_values(values)
        } else {
            let k = random_below(values.len());
            let st = values[k].clone();
            proof {
                assert(values.deep_view()[k as int] == st@);
            }
            st
        };
        let k = random_below(4);
        let ghost pre_dv = distractors.deep_view();
        let mut choices = distractors;
        choices.insert(k, word.to_owned());
        let ghost cdv = choices.deep_view();
        proof {
            assert(cdv =~= pre_dv.insert(k as int, w));
            assert(cdv.len() == 4);
            assert forall|a: int, b: int| 0 <= a < b < 4 implies cdv[a] != cdv[b] by {
                assert(folded_eq(w, w));
            }
            assert(cdv.no_duplicates());
        }
        let solution = match Choice::try_from(k) {
            Some(c) => c,
            None => {
                proof {
                    assert(false);
                }
                Choice::A
            },
        };
        let m = Mcq::new(statement, choices, solution);
        proof {
            assert(cdv[k as int] == w);
            assert forall|i2: int| 0 <= i2 < 4 implies (folded_eq(#[trigger] cdv[i2], w) <==> i2
                == k as int) by {
                assert(folded_eq(w, w));
            }
            assert forall|i2: int| 0 <= i2 < 4 && i2 != k as int implies old(
                self,
            ).spec_words().contains(#[trigger] cdv[i2]) by {
                let d = cdv[i2];
                assert(pre_dv.contains(d));
                let j = choose|j: int| 0 <= j < pre_dv.len() && pre_dv[j] == d;
                assert(drawn_marked(*self, d));
                let jj = choose|jj: int|
                    0 <= jj < self.spec_words().len() && self.spec_words()[jj] == d && (
                    #[trigger] self.spec_selected()[jj]);
                assert(old(self).spec_words()[jj] == d);
            }
        }
        Ok(m)
    }
}

/// The position of the target word in a generated choice list.
fn target_index(choices: &Vec<String>, word: &str) -> (r: usize)
    requires
        choices.deep_view().contains(word@),
        forall|i: int|
            0 <= i < choices.deep_view().len() ==> (folded_eq(
                #[trigger] choices.deep_view()[i],
                word@,
            ) <==> choices.deep_view()[i] == word@),
    ensures
        r < choices.deep_view().len(),
        choices.deep_view()[r as int] == word@,
{
    let ghost cdv = choices.deep_view();
    let mut i: usize = 0;
    while i < choices.len()
        invariant
            0 <= i <= choices@.len(),
            cdv == choices.deep_view(),
            cdv.contains(word@),
            forall|j: int| 0 <= j < cdv.len() ==> (folded_eq(#[trigger] cdv[j], word@) <==> cdv[j] == word@),
            forall|j: int| 0 <= j < i ==> cdv[j] != word@,
        decreases choices@.len() - i,
    {
        if folded_eq_exec(choices[i].as_str(), word) {
            return i;
        }
        i = i + 1;
    }
    proof {
        let j = choose|j: int| 0 <= j < cdv.len() && cdv[j] == word@;
        assert(false);
    }
    0
}

/// The fetched attribute that a question's statement is built from: an
/// example sentence or a definition, depending on the configured quiz kind.
#[derive(Debug, Clone)]
pub enum StatementSource {
    Examples(ExampleResponse),
    Definitions(DefinitionResponse),
}

impl StatementSource {
    /// The word the provider resolved the statement attribute for.
    pub open spec fn spec_word(&self) -> Seq<char> {
        match self {
            StatementSource::Examples(e) => e.word@,
            StatementSource::Definitions(d) => d.word@,
        }
    }

    /// The candidate statement texts.
    pub open spec fn spec_texts(&self) -> Seq<Seq<char>> {
        match self {
            StatementSource::Examples(e) => e.examples.deep_view(),
            StatementSource::Definitions(d) => Seq::new(
                d.definitions@.len(),
                |i: int| d.definitions@[i].definition@,
            ),
        }
    }
}

/// Which statement attribute each quiz kind asks the providers for: a
/// synonym quiz takes its statements from example sentences, a definition
/// quiz from definitions.
pub open spec fn source_matches_kind(kind: Details, source: StatementSource) -> bool {
    match source {
        StatementSource::Examples(_) => kind is Synonyms,
        StatementSource::Definitions(_) => kind is Definitions,
    }
}

/// The distinct synonym texts that can serve as distractors for a target:
/// entries that are not the target itself up to whitespace and case.
pub open spec fn usable_set(syns: Seq<Seq<char>>, w: Seq<char>) -> Set<Seq<char>>
    decreases syns.len(),
{
    if syns.len() == 0 {
        Set::empty()
    } else {
        let rest = usable_set(syns.drop_last(), w);
        if !folded_eq(syns.last(), w) {
            rest.insert(syns.last())
        } else {
            rest
        }
    }
}

/// What holds of a generated choice list: four pairwise-distinct texts, the
/// target among them, every other text a usable distractor, and the target
/// the only entry that matches the target up to whitespace and case.
pub open spec fn choices_ok(c: Seq<Seq<char>>, syns: Seq<Seq<char>>, w: Seq<char>) -> bool {
    &&& c.len() == 4
    &&& c.no_duplicates()
    &&& c.contains(w)
    &&& forall|i: int| 0 <= i < c.len() ==> (#[trigger] c[i]) == w || usable_set(syns, w).contains(c[i])
    &&& forall|i: int| 0 <= i < c.len() ==> (folded_eq(#[trigger] c[i], w) <==> c[i] == w)
}

/// Every member of `usable_set` is a non-match for the target.
proof fn lemma_usable_set_sound(syns: Seq<Seq<char>>, w: Seq<char>, x: Seq<char>)
    requires
        usable_set(syns, w).contains(x),
    ensures
        !folded_eq(x, w),
    decreases syns.len(),
{
    if syns.len() > 0 {
        if usable_set(syns.drop_last(), w).contains(x) {
            lemma_usable_set_sound(syns.drop_last(), w, x);
        }
    }
}

/// How many unselected pool words are usable as distractors for a target:
/// all but the target itself, up to whitespace and case.
pub open spec fn usable_pool(words: Seq<Seq<char>>, sel: Seq<bool>, w: Seq<char>) -> nat
    decreases words.len(),
{
    if words.len() == 0 || sel.len() == 0 {
        0
    } else {
        usable_pool(words.drop_last(), sel.drop_last(), w) + if !sel.last() && !folded_eq(
            words.last(),
            w,
        ) {
            1nat
        } else {
            0nat
        }
    }
}

proof fn lemma_usable_pool_le_avail(words: Seq<Seq<char>>, sel: Seq<bool>, w: Seq<char>)
    requires
        words.len() == sel.len(),
    ensures
        usable_pool(words, sel, w) <= avail(sel),
    decreases words.len(),
{
    if words.len() > 0 {
        lemma_usable_pool_le_avail(words.drop_last(), sel.drop_last(), w);
    }
}

proof fn lemma_usable_pool_update(words: Seq<Seq<char>>, sel: Seq<bool>, w: Seq<char>, i: int)
    requires
        words.len() == sel.len(),
        0 <= i < sel.len(),
        !sel[i],
    ensures
        usable_pool(words, sel.update(i, true), w) == usable_pool(words, sel, w) - (
        if !folded_eq(words[i], w) {
            1int
        } else {
            0int
        }),
    decreases words.len(),
{
    if i == sel.len() - 1 {
        assert(sel.update(i, true).drop_last() =~= sel.drop_last());
    } else {
        assert(sel.update(i, true).drop_last() =~= sel.drop_last().update(i, true));
        lemma_usable_pool_update(words.drop_last(), sel.drop_last(), w, i);
    }
}

/// The values joined into one display text, separated by commas.
pub open spec fn joined(vals: Seq<Seq<char>>) -> Seq<char>
    decreases vals.len(),
{
    if vals.len() == 0 {
        Seq::empty()
    } else if vals.len() == 1 {
        vals[0]
    } else {
        joined(vals.drop_last()) + ", "@ + vals.last()
    }
}

/// Join the values into one display text, separated by commas.
fn join_values(vals: &Vec<String>) -> (r: String)
    ensures
        r@ == joined(vals.deep_view()),
{
    let ghost dv = vals.deep_view();
    let mut s = String::new();
    let mut i: usize = 0;
    proof {
        assert(dv.take(0) =~= Seq::<Seq<char>>::empty());
    }
    while i < vals.len()
        invariant
            0 <= i <= dv.len(),
            dv == vals.deep_view(),
            s@ == joined(dv.take(i as int)),
        decreases dv.len() - i,
    {
        proof {
            let cur = dv.take(i as int + 1);
            assert(cur.drop_last() =~= dv.take(i as int));
            assert(cur.last() == dv[i as int]);
        }
        if i > 0 {
            s.append(", ");
        }
        s.append(vals[i].as_str());
        i = i + 1;
    }
    proof {
        assert(dv.take(dv.len() as int) =~= dv);
    }
    s
}

/// Whether a quiz kind presents the fetched values joined together
/// (synonyms, antonyms) rather than one picked value (definitions,
/// examples).
pub open spec fn list_joined_kind(kind: Details) -> bool {
    kind is Synonyms || kind is Antonyms
}

/// Whether some pool word holding these characters has been offered.
pub open spec fn drawn_marked(q: EnglishQuiz, d: Seq<char>) -> bool {
    exists|i: int|
        0 <= i < q.spec_words().len() && q.spec_words()[i] == d && (#[trigger] q.spec_selected()[i])
}

/// One successful selection chose index `i`: the index was unselected, it
/// is now marked, and its word was returned; nothing else changed.
pub open spec fn select_step_at(pre: EnglishQuiz, post: EnglishQuiz, w: Seq<char>, i: int) -> bool {
    &&& 0 <= i < pre.spec_selected().len()
    &&& !pre.spec_selected()[i]
    &&& post.spec_selected() == pre.spec_selected().update(i, true)
    &&& w == pre.spec_words()[i]
    &&& post.spec_words() == pre.spec_words()
    &&& post.spec_kind() == pre.spec_kind()
}

/// One successful selection: some unselected index was chosen and marked,
/// and its word returned.
pub open spec fn select_step(pre: EnglishQuiz, post: EnglishQuiz, w: Seq<char>) -> bool {
    exists|i: int| select_step_at(pre, post, w, i)
}

/// A run of selections: `states` are the successive pool states and
/// `words[k]` is the word the selection from `states[k]` returned.
pub open spec fn select_run(states: Seq<EnglishQuiz>, words: Seq<Seq<char>>) -> bool {
    &&& states.len() == words.len() + 1
    &&& forall|k: int|
        0 <= k < words.len() ==> select_step(states[k], states[k + 1], #[trigger] words[k])
}

/// A fresh pool: well-formed, with nothing offered yet.
pub open spec fn fresh_pool(q: EnglishQuiz) -> bool {
    &&& q.wf()
    &&& forall|i: int| 0 <= i < q.spec_selected().len() ==> !(#[trigger] q.spec_selected()[i])
}

/// The index a successful selection chose.
spec fn chosen_index(pre: EnglishQuiz, post: EnglishQuiz, w: Seq<char>) -> int {
    choose|i: int| select_step_at(pre, post, w, i)
}

proof fn lemma_avail_all_false(sel: Seq<bool>)
    requires
        forall|i: int| 0 <= i < sel.len() ==> !(#[trigger] sel[i]),
    ensures
        avail(sel) == sel.len(),
    decreases sel.len(),
{
    if sel.len() > 0 {
        lemma_avail_all_false(sel.drop_last());
    }
}

proof fn lemma_run_core(states: Seq<EnglishQuiz>, words: Seq<Seq<char>>)
    requires
        select_run(states, words),
    ensures
        forall|k: int|
            0 <= k < states.len() ==> (#[trigger] states[k]).spec_words()
                == states[0].spec_words(),
        forall|k: int|
            0 <= k < states.len() ==> (#[trigger] states[k]).spec_selected().len()
                == states[0].spec_selected().len(),
        avail(states.last().spec_selected()) + words.len() == avail(states[0].spec_selected()),
    decreases words.len(),
{
    if words.len() == 0 {
    } else {
        let sd = states.drop_last();
        let wd = words.drop_last();
        assert(select_run(sd, wd)) by {
            assert forall|k: int| 0 <= k < wd.len() implies select_step(
                sd[k],
                sd[k + 1],
                #[trigger] wd[k],
            ) by {
                assert(select_step(states[k], states[k + 1], words[k]));
            }
        }
        lemma_run_core(sd, wd);
        let n = words.len() as int;
        assert(select_step(states[n - 1], states[n], words[n - 1]));
        let i = chosen_index(states[n - 1], states[n], words[n - 1]);
        assert(select_step_at(states[n - 1], states[n], words[n - 1], i));
        lemma_avail_update_true(states[n - 1].spec_selected(), i);
        assert(sd.last() == states[n - 1]);
        assert(states.last() == states[n]);
        assert forall|k: int| 0 <= k < states.len() implies (#[trigger] states[k]).spec_words()
            == states[0].spec_words() by {
            if k < states.len() - 1 {
                assert(sd[k] == states[k]);
                assert(sd[0] == states[0]);
            } else {
                assert(sd[n - 1] == states[n - 1]);
                assert(sd[0] == states[0]);
            }
        }
        assert forall|k: int| 0 <= k < states.len() implies (
        #[trigger] states[k]).spec_selected().len() == states[0].spec_selected().len() by {
            if k < states.len() - 1 {
                assert(sd[k] == states[k]);
                assert(sd[0] == states[0]);
            } else {
                assert(sd[n - 1] == states[n - 1]);
                assert(sd[0] == states[0]);
            }
        }
    }
}

proof fn lemma_run_mono(states: Seq<EnglishQuiz>, words: Seq<Seq<char>>, l0: int, l1: int, i: int)
    requires
        select_run(states, words),
        0 <= l0 <= l1 < states.len(),
        0 <= i < states[l0].spec_selected().len(),
        states[l0].spec_selected()[i],
    ensures
        i < states[l1].spec_selected().len(),
        states[l1].spec_selected()[i],
    decreases l1 - l0,
{
    lemma_run_core(states, words);
    if l0 < l1 {
        lemma_run_mono(states, words, l0, l1 - 1, i);
        assert(select_step(states[l1 - 1], states[l1], words[l1 - 1]));
        let j = chosen_index(states[l1 - 1], states[l1], words[l1 - 1]);
        assert(select_step_at(states[l1 - 1], states[l1], words[l1 - 1], j));
    }
}

/// Sampling without replacement: starting from a fresh pool and selecting
/// once per pool word, the offered words are pairwise distinct and every
/// pool word is among them — each word is offered exactly once, in some
/// order — and the pool ends exhausted, so the next selection fails.
pub proof fn lemma_select_without_replacement(states: Seq<EnglishQuiz>, words: Seq<Seq<char>>)
    requires
        select_run(states, words),
        fresh_pool(states[0]),
        words.len() == states[0].spec_words().len(),
    ensures
        words.no_duplicates(),
        forall|k: int| 0 <= k < words.len() ==> states[0].spec_words().contains(#[trigger] words[k]),
        forall|i: int|
            0 <= i < states[0].spec_words().len() ==> words.contains(
                #[trigger] states[0].spec_words()[i],
            ),
        avail(states.last().spec_selected()) == 0,
{
    let s0 = states[0];
    let n = words.len() as int;
    lemma_run_core(states, words);
    lemma_avail_all_false(s0.spec_selected());
    let idx = Seq::new(n as nat, |k: int| chosen_index(states[k], states[k + 1], words[k]));
    assert forall|k: int| 0 <= k < n implies select_step_at(
        states[k],
        states[k + 1],
        words[k],
        #[trigger] idx[k],
    ) by {
        assert(select_step(states[k], states[k + 1], words[k]));
    }
    assert forall|k: int, l: int| 0 <= k < l < n implies idx[k] != idx[l] by {
        assert(states[k + 1].spec_selected()[idx[k]]);
        lemma_run_mono(states, words, k + 1, l, idx[k]);
        assert(!states[l].spec_selected()[idx[l]]);
    }
    assert(idx.no_duplicates());
    assert forall|k: int| 0 <= k < n implies #[trigger] words[k] == s0.spec_words()[idx[k]]
        && s0.spec_words().contains(words[k]) by {
        assert(states[k].spec_words() == s0.spec_words());
    }
    assert forall|k: int, l: int| 0 <= k < l < n implies words[k] != words[l] by {
        assert(s0.spec_words()[idx[k]] != s0.spec_words()[idx[l]]);
    }
    assert(words.no_duplicates());
    let iset = idx.to_set();
    let range = vstd::set_lib::set_int_range(0, n);
    vstd::set_lib::lemma_int_range(0, n);
    idx.unique_seq_to_set();
    assert(iset.subset_of(range));
    vstd::set_lib::lemma_subset_equality(iset, range);
    assert forall|i: int| 0 <= i < s0.spec_words().len() implies words.contains(
        #[trigger] s0.spec_words()[i],
    ) by {
        assert(range.contains(i));
        assert(iset.contains(i));
        let k = choose|k: int| 0 <= k < idx.len() && idx[k] == i;
        assert(words[k] == s0.spec_words()[i]);
    }
}

/// A permutation (stated as multiset equality of the element views) keeps
/// length, distinctness, and membership.
proof fn lemma_permutation_keeps(pre: Seq<Seq<char>>, post: Seq<Seq<char>>)
    requires
        pre.to_multiset() == post.to_multiset(),
        pre.no_duplicates(),
    ensures
        post.len() == pre.len(),
        post.no_duplicates(),
        forall|j: int| 0 <= j < post.len() ==> pre.contains(#[trigger] post[j]),
        forall|x: Seq<char>| pre.contains(x) ==> post.contains(x),
{
    broadcast use vstd::seq_lib::group_to_multiset_ensures;

    pre.to_multiset_ensures();
    post.to_multiset_ensures();
    assert(post.len() == post.to_multiset().len());
    assert(pre.len() == pre.to_multiset().len());
    pre.lemma_multiset_has_no_duplicates();
    post.lemma_multiset_has_no_duplicates_conv();
    assert forall|j: int| 0 <= j < post.len() implies pre.contains(#[trigger] post[j]) by {
        assert(post.contains(post[j]));
        assert(post.to_multiset().count(post[j]) > 0);
        assert(pre.to_multiset().count(post[j]) > 0);
    }
    assert forall|x: Seq<char>| pre.contains(x) implies post.contains(x) by {
        assert(pre.to_multiset().count(x) > 0);
        assert(post.to_multiset().count(x) > 0);
    }
}

} // verus!
