//! Carry-forward: load a prior graded session and select the questions that
//! were answered incorrectly to seed a new run.

use vstd::prelude::*;

use crate::codec::{
    decode_pairs, decode_pairs_spec, decode_questions, decode_questions_spec, DecodeError,
};
use crate::english::EnglishQuizError;
use crate::mcq::{Choice, Mcq, McqView};
use crate::rng::shuffle;

verus! {

/// Whether a graded pair records an answer that differs from the expected
/// one. Questions that were never answered are not carried forward.
pub open spec fn spec_missed(p: (Choice, Option<Choice>)) -> bool {
    match p.1 {
        Some(s) => s != p.0,
        None => false,
    }
}

fn missed(p: &(Choice, Option<Choice>)) -> (r: bool)
    ensures
        r == spec_missed(*p),
{
    match p.1 {
        Some(s) => s != p.0,
        None => false,
    }
}

/// How many pairs record an incorrect answer.
pub open spec fn missed_count(ps: Seq<(Choice, Option<Choice>)>) -> nat
    decreases ps.len(),
{
    if ps.len() == 0 {
        0
    } else {
        missed_count(ps.drop_last()) + if spec_missed(ps.last()) {
            1nat
        } else {
            0nat
        }
    }
}

/// The questions whose pair records an incorrect answer, in session order.
pub open spec fn kept_questions(qs: Seq<Mcq>, ps: Seq<(Choice, Option<Choice>)>) -> Seq<Mcq>
    decreases qs.len(),
{
    if qs.len() == 0 || ps.len() == 0 {
        Seq::empty()
    } else {
        let rest = kept_questions(qs.drop_last(), ps.drop_last());
        if spec_missed(ps.last()) {
            rest.push(qs.last())
        } else {
            rest
        }
    }
}

/// How many carried questions a new run of `requested` questions may seed:
/// the configured fraction, rounded down.
pub open spec fn carry_limit(requested: int, ratio_num: int, ratio_den: int) -> int {
    requested * ratio_num / ratio_den
}

proof fn lemma_kept_len(qs: Seq<Mcq>, ps: Seq<(Choice, Option<Choice>)>)
    requires
        qs.len() == ps.len(),
    ensures
        kept_questions(qs, ps).len() == missed_count(ps),
    decreases qs.len(),
{
    if qs.len() > 0 {
        lemma_kept_len(qs.drop_last(), ps.drop_last());
    }
}

/// Whether a question stands at some position of a graded session whose
/// pair records an incorrect answer.
pub open spec fn carried_from(q: Mcq, qs: Seq<Mcq>, ps: Seq<(Choice, Option<Choice>)>) -> bool {
    exists|j: int| 0 <= j < qs.len() && qs[j] == q && spec_missed(#[trigger] ps[j])
}

/// Every kept question stands at some position whose pair was missed.
proof fn lemma_kept_sound(qs: Seq<Mcq>, ps: Seq<(Choice, Option<Choice>)>, x: Mcq)
    requires
        qs.len() == ps.len(),
        kept_questions(qs, ps).contains(x),
    ensures
        carried_from(x, qs, ps),
    decreases qs.len(),
{
    if qs.len() > 0 {
        let rest = kept_questions(qs.drop_last(), ps.drop_last());
        if spec_missed(ps.last()) && x == qs.last() {
            assert(spec_missed(ps[ps.len() - 1]));
        } else {
            assert(rest.contains(x)) by {
                let k = choose|k: int|
                    0 <= k < kept_questions(qs, ps).len() && kept_questions(qs, ps)[k] == x;
                assert(rest[k] == x);
            }
            lemma_kept_sound(qs.drop_last(), ps.drop_last(), x);
            let j = choose|j: int|
                0 <= j < qs.drop_last().len() && qs.drop_last()[j] == x && spec_missed(
                    #[trigger] ps.drop_last()[j],
                );
            assert(qs[j] == x && spec_missed(ps[j]));
        }
    }
}

proof fn lemma_perm_membership<A>(pre: Seq<A>, post: Seq<A>)
    requires
        pre.to_multiset() == post.to_multiset(),
    ensures
        post.len() == pre.len(),
        forall|j: int| 0 <= j < post.len() ==> pre.contains(#[trigger] post[j]),
{
    broadcast use vstd::seq_lib::group_to_multiset_ensures;

    pre.to_multiset_ensures();
    post.to_multiset_ensures();
    assert forall|j: int| 0 <= j < post.len() implies pre.contains(#[trigger] post[j]) by {
        assert(post.contains(post[j]));
        assert(post.to_multiset().count(post[j]) > 0);
        assert(pre.to_multiset().count(post[j]) > 0);
    }
}

/// Keep the questions that were answered incorrectly, shuffle them, and
/// truncate to the configured fraction of the requested quiz length.
pub fn carry_forward(
    questions: Vec<Mcq>,
    pairs: &Vec<(Choice, Option<Choice>)>,
    requested: usize,
    ratio_num: usize,
    ratio_den: usize,
) -> (r: Vec<Mcq>)
    requires
        ratio_den >= 1,
        questions@.len() == pairs@.len(),
    ensures
        r@.len() == vstd::math::min(
            missed_count(pairs@) as int,
            carry_limit(requested as int, ratio_num as int, ratio_den as int),
        ),
        forall|i: int| 0 <= i < r@.len() ==> carried_from(#[trigger] r@[i], questions@, pairs@),
{
    let ghost qs0 = questions@;
    let mut rest = questions;
    let mut kept: Vec<Mcq> = Vec::new();
    let mut i: usize = 0;
    proof {
        assert(qs0.skip(0) =~= qs0);
        assert(qs0.take(0) =~= Seq::<Mcq>::empty());
        assert(pairs@.take(0) =~= Seq::<(Choice, Option<Choice>)>::empty());
    }
    while i < pairs.len()
        invariant
            0 <= i <= pairs@.len(),
            qs0.len() == pairs@.len(),
            rest@ == qs0.skip(i as int),
            kept@ == kept_questions(qs0.take(i as int), pairs@.take(i as int)),
        decreases pairs@.len() - i,
    {
        proof {
            assert(rest@[0] == qs0[i as int]);
            assert(rest@.skip(1) =~= qs0.skip(i as int + 1));
            let qc = qs0.take(i as int + 1);
            let pc = pairs@.take(i as int + 1);
            assert(qc.drop_last() =~= qs0.take(i as int));
            assert(pc.drop_last() =~= pairs@.take(i as int));
            assert(qc.last() == qs0[i as int]);
            assert(pc.last() == pairs@[i as int]);
        }
        let q = rest.remove(0);
        if missed(&pairs[i]) {
            kept.push(q);
        }
        i = i + 1;
    }
    proof {
        assert(qs0.take(qs0.len() as int) =~= qs0);
        assert(pairs@.take(pairs@.len() as int) =~= pairs@);
        lemma_kept_len(qs0, pairs@);
    }
    let ghost kept0 = kept@;
    shuffle(&mut kept);
    proof {
        lemma_perm_membership(kept0, kept@);
    }
    proof {
        vstd::arithmetic::mul::lemma_mul_upper_bound(
            requested as int,
            u64::MAX as int,
            ratio_num as int,
            u64::MAX as int,
        );
        assert((u64::MAX as int) * (u64::MAX as int) <= u128::MAX as int);
    }
    let lim128 = (requested as u128) * (ratio_num as u128) / (ratio_den as u128);
    let klen = kept.len();
    let lim: usize = if lim128 >= klen as u128 {
        klen
    } else {
        lim128 as usize
    };
    let ghost pre_trunc = kept@;
    kept.truncate(lim);
    proof {
        assert forall|j: int| 0 <= j < kept@.len() implies carried_from(
            #[trigger] kept@[j],
            qs0,
            pairs@,
        ) by {
            assert(kept@[j] == pre_trunc[j]);
            assert(kept0.contains(pre_trunc[j]));
            lemma_kept_sound(qs0, pairs@, pre_trunc[j]);
        }
    }
    kept
}

/// What the carry-forward seed satisfies for a well-decoded prior session:
/// as many questions as the ratio allows and the missed pairs supply, each
/// well-formed and standing at some position that was answered incorrectly.
pub open spec fn seed_ok(
    v: Seq<Mcq>,
    qm: Seq<McqView>,
    pm: Seq<(Choice, Option<Choice>)>,
    requested: int,
    ratio_num: int,
    ratio_den: int,
) -> bool {
    &&& v.len() == vstd::math::min(
        missed_count(pm) as int,
        carry_limit(requested, ratio_num, ratio_den),
    )
    &&& forall|i: int| 0 <= i < v.len() ==> seeded_from(#[trigger] v[i], qm, pm)
    &&& forall|i: int| 0 <= i < v.len() ==> (#[trigger] v[i]).wf()
}

/// Whether a question has the model at some position of a decoded prior
/// session whose pair records an incorrect answer.
pub open spec fn seeded_from(q: Mcq, qm: Seq<McqView>, pm: Seq<(Choice, Option<Choice>)>) -> bool {
    exists|j: int| 0 <= j < qm.len() && q@ == qm[j] && spec_missed(#[trigger] pm[j])
}

/// Load a prior persisted session (its question list and its parallel
/// answer-pairs list) and select the carry-forward seed. A missing or
/// truncated byte form is "no prior session" and yields an empty seed; any
/// other defect, or lists whose lengths disagree, is a fatal `FileError`.
pub fn load_carry_forward(
    qbytes: &Vec<u8>,
    pbytes: &Vec<u8>,
    requested: usize,
    ratio_num: usize,
    ratio_den: usize,
) -> (r: Result<Vec<Mcq>, EnglishQuizError>)
    requires
        ratio_den >= 1,
    ensures
        match (decode_questions_spec(qbytes@), decode_pairs_spec(pbytes@)) {
            (Err(DecodeError::UnexpectedEnd), _) => r is Ok && r->Ok_0@.len() == 0,
            (Err(DecodeError::Malformed), _) => r is Err && r->Err_0 is FileError,
            (Ok(_), Err(DecodeError::UnexpectedEnd)) => r is Ok && r->Ok_0@.len() == 0,
            (Ok(_), Err(DecodeError::Malformed)) => r is Err && r->Err_0 is FileError,
            (Ok(qm), Ok(pm)) => {
                if qm.len() != pm.len() {
                    r is Err && r->Err_0 is FileError
                } else {
                    r is Ok && seed_ok(
                        r->Ok_0@,
                        qm,
                        pm,
                        requested as int,
                        ratio_num as int,
                        ratio_den as int,
                    )
                }
            },
        },
{
    let questions = match decode_questions(qbytes) {
        Ok(qs) => qs,
        Err(DecodeError::UnexpectedEnd) => {
            return Ok(Vec::new());
        },
        Err(DecodeError::Malformed) => {
            return Err(EnglishQuizError::FileError("malformed question state".to_owned()));
        },
    };
    let pairs = match decode_pairs(pbytes) {
        Ok(ps) => ps,
        Err(DecodeError::UnexpectedEnd) => {
            return Ok(Vec::new());
        },
        Err(DecodeError::Malformed) => {
            return Err(EnglishQuizError::FileError("malformed answer state".to_owned()));
        },
    };
    if questions.len() != pairs.len() {
        return Err(EnglishQuizError::FileError("prior session lists disagree".to_owned()));
    }
    let ghost qm = questions.deep_view();
    let ghost gqs = questions@;
    let ghost pm = pairs@;
    let seed = carry_forward(questions, &pairs, requested, ratio_num, ratio_den);
    proof {
        assert forall|i: int| 0 <= i < seed@.len() implies seeded_from(
            #[trigger] seed@[i],
            qm,
            pm,
        ) && seed@[i].wf() by {
            assert(carried_from(seed@[i], gqs, pm));
            let j = choose|j: int|
                0 <= j < gqs.len() && gqs[j] == seed@[i] && spec_missed(#[trigger] pm[j]);
            assert(gqs[j]@ == qm[j]);
            assert(gqs[j].wf());
        }
    }
    Ok(seed)
}

} // verus!
