//! Multiple-choice questions: the `Choice` ordinal and the `Mcq` question type.

use vstd::prelude::*;

use crate::text::{str_eq, trim, trim_spec};

verus! {

/// One of the four choice ordinals of a question.
#[derive(Clone, Copy, Debug, PartialEq, Eq, Structural)]
pub enum Choice {
    A,
    B,
    C,
    D,
}

/// The position in a question's choice list that a `Choice` stands for.
pub open spec fn choice_ord(c: Choice) -> int {
    match c {
        Choice::A => 0,
        Choice::B => 1,
        Choice::C => 2,
        Choice::D => 3,
    }
}

/// The choice that a trimmed submission names, if any.
pub open spec fn parse_choice(t: Seq<char>) -> Option<Choice> {
    if t == "A"@ || t == "a"@ {
        Some(Choice::A)
    } else if t == "B"@ || t == "b"@ {
        Some(Choice::B)
    } else if t == "C"@ || t == "c"@ {
        Some(Choice::C)
    } else if t == "D"@ || t == "d"@ {
        Some(Choice::D)
    } else {
        None
    }
}

impl Choice {
    /// The position of this choice in a question's choice list.
    pub fn index(self) -> (r: usize)
        ensures
            r == choice_ord(self),
    {
        match self {
            Choice::A => 0,
            Choice::B => 1,
            Choice::C => 2,
            Choice::D => 3,
        }
    }

    /// The choice at a given position of a choice list, if the position is in
    /// range.
    pub fn try_from(value: usize) -> (r: Option<Choice>)
        ensures
            match r {
                Some(c) => choice_ord(c) == value,
                None => value >= 4,
            },
    {
        match value {
            0 => Some(Choice::A),
            1 => Some(Choice::B),
            2 => Some(Choice::C),
            3 => Some(Choice::D),
            _ => None,
        }
    }

    /// Parse a submitted answer: surrounding whitespace is ignored and both
    /// letter cases are accepted. Anything else is no answer.
    pub fn from_str(s: &str) -> (r: Option<Choice>)
        ensures
            r == parse_choice(trim_spec(s@)),
    {
        let t = trim(s);
        if str_eq(t.as_str(), "A") || str_eq(t.as_str(), "a") {
            Some(Choice::A)
        } else if str_eq(t.as_str(), "B") || str_eq(t.as_str(), "b") {
            Some(Choice::B)
        } else if str_eq(t.as_str(), "C") || str_eq(t.as_str(), "c") {
            Some(Choice::C)
        } else if str_eq(t.as_str(), "D") || str_eq(t.as_str(), "d") {
            Some(Choice::D)
        } else {
            None
        }
    }

    /// The letter under which this choice is displayed.
    pub fn letter(self) -> (r: String)
        ensures
            r@ == spec_letter(self),
    {
        match self {
            Choice::A => "A".to_owned(),
            Choice::B => "B".to_owned(),
            Choice::C => "C".to_owned(),
            Choice::D => "D".to_owned(),
        }
    }
}

/// The display letter of a choice.
pub open spec fn spec_letter(c: Choice) -> Seq<char> {
    match c {
        Choice::A => "A"@,
        Choice::B => "B"@,
        Choice::C => "C"@,
        Choice::D => "D"@,
    }
}

/// The first position at or after `from` where `p` occurs in `s`, if any.
pub open spec fn find_at(s: Seq<char>, p: Seq<char>, from: int) -> Option<int>
    decreases s.len() - from + 1,
{
    if from < 0 || from + p.len() > s.len() {
        None
    } else if s.subrange(from, from + p.len() as int) == p {
        Some(from)
    } else {
        find_at(s, p, from + 1)
    }
}

/// `s` with its first occurrence of `p`, if there is one, replaced by `mask`.
pub open spec fn mask_first(s: Seq<char>, p: Seq<char>, mask: Seq<char>) -> Seq<char> {
    match find_at(s, p, 0) {
        Some(i) => s.subrange(0, i) + mask + s.subrange(i + p.len() as int, s.len() as int),
        None => s,
    }
}

/// The text that hides the correct answer inside a displayed statement.
pub open spec fn mask_text() -> Seq<char> {
    "[.....]"@
}

/// A multiple-choice question: a statement, four choice texts, and the
/// ordinal of the correct choice.
#[derive(Debug, Clone)]
pub struct Mcq {
    statement: String,
    choices: Vec<String>,
    solution: Choice,
}

/// The mathematical model of a question: its statement and choice texts and
/// the correct ordinal.
#[verifier::ext_equal]
pub struct McqView {
    pub statement: Seq<char>,
    pub choices: Seq<Seq<char>>,
    pub solution: Choice,
}

impl View for Mcq {
    type V = McqView;

    closed spec fn view(&self) -> McqView {
        McqView {
            statement: self.statement@,
            choices: self.choices.deep_view(),
            solution: self.solution,
        }
    }
}

impl DeepView for Mcq {
    type V = McqView;

    open spec fn deep_view(&self) -> McqView {
        self.view()
    }
}

impl Mcq {
    /// The statement of the question.
    pub open spec fn spec_statement(&self) -> Seq<char> {
        self@.statement
    }

    /// The choice texts, in display order.
    pub open spec fn spec_choices(&self) -> Seq<Seq<char>> {
        self@.choices
    }

    /// The correct ordinal.
    pub open spec fn spec_solution(&self) -> Choice {
        self@.solution
    }

    /// The invariants of a well-formed question: four choices, pairwise
    /// distinct choice texts.
    pub open spec fn wf(&self) -> bool {
        &&& self.spec_choices().len() == 4
        &&& self.spec_choices().no_duplicates()
    }

    /// Build a question. The choice-list length is a run parameter checked at
    /// the call site: here it must be four, with pairwise distinct texts.
    pub fn new(statement: String, choices: Vec<String>, solution: Choice) -> (r: Mcq)
        requires
            choices.deep_view().len() == 4,
            choices.deep_view().no_duplicates(),
        ensures
            r.wf(),
            r.spec_statement() == statement@,
            r.spec_choices() == choices.deep_view(),
            r.spec_solution() == solution,
    {
        Mcq { statement, choices, solution }
    }

    /// The statement of the question.
    pub fn statement(&self) -> (r: &String)
        ensures
            r@ == self.spec_statement(),
    {
        &self.statement
    }

    /// The choice texts, in display order.
    pub fn choices(&self) -> (r: &Vec<String>)
        ensures
            r.deep_view() == self.spec_choices(),
    {
        &self.choices
    }

    /// What `ask` displays: the statement with the first literal occurrence
    /// of the correct choice text, if any, masked, and a closing newline.
    pub open spec fn display_text(&self) -> Seq<char> {
        mask_first(self.spec_statement(), self.spec_choices()[choice_ord(self.spec_solution())], mask_text()) + "\n"@
    }
}

impl crate::Question for Mcq {
    type Answer = Choice;

    /// A question can be displayed once its choice-list invariants hold.
    open spec fn askable(&self) -> bool {
        self.wf()
    }

    open spec fn display_of(&self) -> Seq<char> {
        self.display_text()
    }

    open spec fn parse_of(&self, input: Seq<char>) -> Option<Choice> {
        parse_choice(trim_spec(input))
    }

    open spec fn expected(&self) -> Choice {
        self.spec_solution()
    }

    /// The text under which the question is displayed: the solution text is
    /// masked so that the statement does not give the answer away.
    fn ask(&self) -> (r: String) {
        let sol = &self.choices[self.solution.index()];
        let masked = replace_first(self.statement.as_str(), sol.as_str(), "[.....]");
        let mut out = masked;
        out.append("\n");
        proof {
            assert(self.spec_choices()[choice_ord(self.spec_solution())] == sol@);
        }
        out
    }

    /// Parse a submission against this question; an unparsable submission is
    /// no answer.
    fn attempt(&self, input: &str) -> (r: Option<Choice>) {
        Choice::from_str(input)
    }

    /// The correct ordinal.
    fn answer(&self) -> (r: Choice) {
        self.solution
    }
}

/// Replace the first occurrence of `p` in `s`, if there is one, with `mask`.
pub fn replace_first(s: &str, p: &str, mask: &str) -> (r: String)
    ensures
        r@ == mask_first(s@, p@, mask@),
{
    let s_len = s.unicode_len();
    let p_len = p.unicode_len();
    if p_len > s_len {
        return s.to_owned();
    }
    if p_len == 0 {
        proof {
            assert(s@.subrange(0, 0) =~= p@);
            assert(find_at(s@, p@, 0) == Some(0int));
        }
        let mut out = mask.to_owned();
        out.append(s);
        proof {
            assert(s@.subrange(0, 0) + mask@ + s@.subrange(0, s@.len() as int) =~= out@);
        }
        return out;
    }
    let mut i: usize = 0;
    while i <= s_len - p_len
        invariant
            0 <= i,
            1 <= p_len <= s_len,
            i + p_len <= s_len + 1,
            s_len == s@.len(),
            p_len == p@.len(),
            find_at(s@, p@, 0) == find_at(s@, p@, i as int),
        decreases s_len - i,
    {
        let part = s.substring_char(i, i + p_len);
        if str_eq(part, p) {
            let mut out = s.substring_char(0, i).to_owned();
            out.append(mask);
            let tail = s.substring_char(i + p_len, s_len);
            out.append(tail);
            proof {
                assert(find_at(s@, p@, i as int) == Some(i as int));
            }
            return out;
        }
        i = i + 1;
    }
    proof {
        assert(find_at(s@, p@, i as int) is None);
    }
    s.to_owned()
}

} // verus!
