//! The dictionary/thesaurus provider's entry shapes, and the extraction of
//! lexical attributes from them.
//!
//! The HTTP fetch and the JSON deserialization happen outside this crate;
//! the entries they hand over are plain values, and everything the quiz
//! reads out of them is computed and verified here. Dictionary texts carry
//! brace-delimited markup tokens; removing them relies on an outside
//! regular-expression engine through a trusted wrapper.

use vstd::prelude::*;

use crate::words_api::{
    AntonymResponse, Definition, DefinitionResponse, ExampleResponse, SynonymResponse,
};

verus! {

/// One dictionary entry: its headword, its definition sections, and its
/// short definitions.
#[derive(Debug, Clone)]
pub struct CollegiateEntry {
    pub meta: CollegiateMeta,
    pub def: Vec<CollegiateDefSection>,
    pub shortdef: Vec<String>,
}

/// The identifying data of a dictionary entry.
#[derive(Debug, Clone)]
pub struct CollegiateMeta {
    pub id: String,
}

/// One definition section: a sequence of sense blocks.
#[derive(Debug, Clone)]
pub struct CollegiateDefSection {
    pub sseq: Vec<Vec<SenseOrSkip>>,
}

/// One element of a sense block: either a parsed sense or something the
/// deserializer skipped.
#[derive(Debug, Clone)]
pub enum SenseOrSkip {
    Sense { dt: Vec<DtElement> },
    Skip,
}

/// One verbal illustration.
#[derive(Debug, Clone)]
pub struct Vis {
    pub t: String,
}

/// One item in a sense's defining-text array: a text, or verbal
/// illustrations.
#[derive(Debug, Clone)]
pub enum DtElement {
    Text(String),
    Vis(Vec<Vis>),
}

/// One thesaurus entry.
#[derive(Debug, Clone)]
pub struct ThesaurusEntry {
    pub meta: ThesaurusMeta,
}

/// The identifying data of a thesaurus entry, with its synonym and antonym
/// groups.
#[derive(Debug, Clone)]
pub struct ThesaurusMeta {
    pub id: String,
    pub syns: Vec<Vec<String>>,
    pub ants: Vec<Vec<String>>,
}

/// The text with the dictionary's brace-delimited markup tokens removed and
/// the remainder trimmed.
pub uninterp spec fn cleaned(s: Seq<char>) -> Seq<char>;

/// Relies on `regex::Regex::replace_all` with the fixed pattern
/// `\{[^{}]*\}`, followed by `str::trim`: every brace-delimited token is
/// replaced by nothing and the remainder is trimmed, a function of the
/// input characters alone.
#[verifier::external_body]
fn remove_markup(s: &str) -> (r: String)
    ensures
        r@ == cleaned(s@),
{
    let re = regex::Regex::new(r"\{[^{}]*\}").unwrap();
    re.replace_all(s, "").trim().to_string()
}

/// Strip markup and surrounding whitespace from a fetched text; `None`
/// when nothing printable remains.
pub fn clean_markup(s: &str) -> (r: Option<String>)
    ensures
        match r {
            Some(t) => t@ == cleaned(s@) && t@.len() > 0,
            None => cleaned(s@).len() == 0,
        },
{
    let t = remove_markup(s);
    if t.as_str().is_empty() {
        None
    } else {
        Some(t)
    }
}

/// The defining-text arrays of the parsed senses of one sense block.
pub open spec fn block_dts(block: Seq<SenseOrSkip>) -> Seq<Vec<DtElement>>
    decreases block.len(),
{
    if block.len() == 0 {
        Seq::empty()
    } else {
        block_dts(block.drop_last()) + (match block.last() {
            SenseOrSkip::Sense { dt } => seq![dt],
            SenseOrSkip::Skip => Seq::empty(),
        })
    }
}

/// The defining-text arrays of all sense blocks of one definition section.
pub open spec fn sseq_dts(sseq: Seq<Vec<SenseOrSkip>>) -> Seq<Vec<DtElement>>
    decreases sseq.len(),
{
    if sseq.len() == 0 {
        Seq::empty()
    } else {
        sseq_dts(sseq.drop_last()) + block_dts(sseq.last()@)
    }
}

/// The defining-text arrays of all definition sections of one entry.
pub open spec fn sections_dts(defs: Seq<CollegiateDefSection>) -> Seq<Vec<DtElement>>
    decreases defs.len(),
{
    if defs.len() == 0 {
        Seq::empty()
    } else {
        sections_dts(defs.drop_last()) + sseq_dts(defs.last().sseq@)
    }
}

impl CollegiateDefSection {
    /// The defining-text arrays of this section's parsed senses, in order.
    pub fn into_dts(self) -> (r: Vec<Vec<DtElement>>)
        ensures
            r@ == sseq_dts(self.sseq@),
    {
        let ghost orig = self.sseq@;
        let mut blocks = self.sseq;
        let mut out: Vec<Vec<DtElement>> = Vec::new();
        let mut i: usize = 0;
        proof {
            assert(orig.skip(0) =~= orig);
            assert(orig.take(0) =~= Seq::<Vec<SenseOrSkip>>::empty());
            assert(out@ =~= sseq_dts(orig.take(0)));
        }
        let n = blocks.len();
        while i < n
            invariant
                0 <= i <= orig.len(),
                n == orig.len(),
                blocks@ == orig.skip(i as int),
                out@ == sseq_dts(orig.take(i as int)),
            decreases orig.len() - i,
        {
            proof {
                let cur = orig.take(i as int + 1);
                assert(cur.drop_last() =~= orig.take(i as int));
                assert(cur.last() == orig[i as int]);
                assert(blocks@[0] == orig[i as int]);
                assert(blocks@.skip(1) =~= orig.skip(i as int + 1));
            }
            let block = blocks.remove(0);
            append_block_dts(&mut out, block);
            i = i + 1;
        }
        proof {
            assert(orig.take(orig.len() as int) =~= orig);
        }
        out
    }
}

/// Append the defining-text arrays of one sense block.
fn append_block_dts(out: &mut Vec<Vec<DtElement>>, block: Vec<SenseOrSkip>)
    ensures
        final(out)@ == old(out)@ + block_dts(block@),
{
    let ghost orig = block@;
    let mut rest = block;
    let mut j: usize = 0;
    proof {
        assert(orig.skip(0) =~= orig);
        assert(orig.take(0) =~= Seq::<SenseOrSkip>::empty());
        assert(out@ =~= old(out)@ + block_dts(orig.take(0)));
    }
    let n = rest.len();
    while j < n
        invariant
            0 <= j <= orig.len(),
            n == orig.len(),
            rest@ == orig.skip(j as int),
            out@ == old(out)@ + block_dts(orig.take(j as int)),
        decreases orig.len() - j,
    {
        proof {
            let cur = orig.take(j as int + 1);
            assert(cur.drop_last() =~= orig.take(j as int));
            assert(cur.last() == orig[j as int]);
            assert(rest@[0] == orig[j as int]);
            assert(rest@.skip(1) =~= orig.skip(j as int + 1));
        }
        let elem = rest.remove(0);
        match elem {
            SenseOrSkip::Sense { dt } => {
                proof {
                    assert((old(out)@ + block_dts(orig.take(j as int))).push(dt) =~= old(out)@
                        + block_dts(orig.take(j as int + 1)));
                }
                out.push(dt);
            },
            SenseOrSkip::Skip => {
                proof {
                    assert(old(out)@ + block_dts(orig.take(j as int + 1)) =~= out@);
                }
            },
        }
        j = j + 1;
    }
    proof {
        assert(orig.take(orig.len() as int) =~= orig);
    }
}

/// The cleaned, non-blank definition texts of one defining-text array.
pub open spec fn dt_texts(dts: Seq<DtElement>) -> Seq<Seq<char>>
    decreases dts.len(),
{
    if dts.len() == 0 {
        Seq::empty()
    } else {
        dt_texts(dts.drop_last()) + (match dts.last() {
            DtElement::Text(s) => if cleaned(s@).len() > 0 {
                seq![cleaned(s@)]
            } else {
                Seq::empty()
            },
            DtElement::Vis(_) => Seq::empty(),
        })
    }
}

/// The cleaned, non-blank definition texts of several defining-text arrays.
pub open spec fn all_dt_texts(arrs: Seq<Vec<DtElement>>) -> Seq<Seq<char>>
    decreases arrs.len(),
{
    if arrs.len() == 0 {
        Seq::empty()
    } else {
        all_dt_texts(arrs.drop_last()) + dt_texts(arrs.last()@)
    }
}

/// The cleaned, non-blank texts of a run of verbal illustrations.
pub open spec fn vis_list_texts(vs: Seq<Vis>) -> Seq<Seq<char>>
    decreases vs.len(),
{
    if vs.len() == 0 {
        Seq::empty()
    } else {
        vis_list_texts(vs.drop_last()) + (if cleaned(vs.last().t@).len() > 0 {
            seq![cleaned(vs.last().t@)]
        } else {
            Seq::empty()
        })
    }
}

/// The cleaned example texts of one defining-text array: the texts of its
/// verbal illustrations.
pub open spec fn dt_example_texts(dts: Seq<DtElement>) -> Seq<Seq<char>>
    decreases dts.len(),
{
    if dts.len() == 0 {
        Seq::empty()
    } else {
        dt_example_texts(dts.drop_last()) + (match dts.last() {
            DtElement::Text(_) => Seq::empty(),
            DtElement::Vis(vs) => vis_list_texts(vs@),
        })
    }
}

/// The cleaned example texts of several defining-text arrays.
pub open spec fn all_example_texts(arrs: Seq<Vec<DtElement>>) -> Seq<Seq<char>>
    decreases arrs.len(),
{
    if arrs.len() == 0 {
        Seq::empty()
    } else {
        all_example_texts(arrs.drop_last()) + dt_example_texts(arrs.last()@)
    }
}

/// The words of a run of synonym or antonym groups, flattened in order.
pub open spec fn flat_words(groups: Seq<Vec<String>>) -> Seq<Seq<char>>
    decreases groups.len(),
{
    if groups.len() == 0 {
        Seq::empty()
    } else {
        flat_words(groups.drop_last()) + groups.last().deep_view()
    }
}

/// The definition texts of a definition list.
pub open spec fn definition_texts(defs: Seq<Definition>) -> Seq<Seq<char>> {
    Seq::new(defs.len(), |i: int| defs[i].definition@)
}

/// Append the cleaned, non-blank texts of one defining-text array.
fn append_dt_texts(out: &mut Vec<String>, dts: Vec<DtElement>)
    ensures
        final(out).deep_view() == old(out).deep_view() + dt_texts(dts@),
{
    let ghost orig = dts@;
    let mut rest = dts;
    let mut j: usize = 0;
    proof {
        assert(orig.skip(0) =~= orig);
        assert(orig.take(0) =~= Seq::<DtElement>::empty());
        assert(out.deep_view() =~= old(out).deep_view() + dt_texts(orig.take(0)));
    }
    let n = rest.len();
    while j < n
        invariant
            0 <= j <= orig.len(),
            n == orig.len(),
            rest@ == orig.skip(j as int),
            out.deep_view() == old(out).deep_view() + dt_texts(orig.take(j as int)),
        decreases orig.len() - j,
    {
        proof {
            let cur = orig.take(j as int + 1);
            assert(cur.drop_last() =~= orig.take(j as int));
            assert(cur.last() == orig[j as int]);
            assert(rest@[0] == orig[j as int]);
            assert(rest@.skip(1) =~= orig.skip(j as int + 1));
        }
        let ghost pre = out.deep_view();
        let elem = rest.remove(0);
        match elem {
            DtElement::Text(s) => {
                match clean_markup(s.as_str()) {
                    Some(t) => {
                        let ghost tv = t@;
                        out.push(t);
                        proof {
                            assert(out.deep_view() =~= pre.push(tv));
                            assert(dt_texts(orig.take(j as int + 1)) == dt_texts(
                                orig.take(j as int),
                            ) + seq![tv]);
                            assert(pre.push(tv) =~= old(out).deep_view() + dt_texts(
                                orig.take(j as int + 1),
                            ));
                        }
                    },
                    None => {
                        proof {
                            assert(out.deep_view() =~= old(out).deep_view() + dt_texts(
                                orig.take(j as int + 1),
                            ));
                        }
                    },
                }
            },
            DtElement::Vis(_) => {
                proof {
                    assert(out.deep_view() =~= old(out).deep_view() + dt_texts(
                        orig.take(j as int + 1),
                    ));
                }
            },
        }
        j = j + 1;
    }
    proof {
        assert(orig.take(orig.len() as int) =~= orig);
    }
}

/// Append the cleaned, non-blank texts of a run of verbal illustrations.
fn append_vis_list(out: &mut Vec<String>, vs: Vec<Vis>)
    ensures
        final(out).deep_view() == old(out).deep_view() + vis_list_texts(vs@),
{
    let ghost orig = vs@;
    let mut rest = vs;
    let mut j: usize = 0;
    proof {
        assert(orig.skip(0) =~= orig);
        assert(orig.take(0) =~= Seq::<Vis>::empty());
        assert(out.deep_view() =~= old(out).deep_view() + vis_list_texts(orig.take(0)));
    }
    let n = rest.len();
    while j < n
        invariant
            0 <= j <= orig.len(),
            n == orig.len(),
            rest@ == orig.skip(j as int),
            out.deep_view() == old(out).deep_view() + vis_list_texts(orig.take(j as int)),
        decreases orig.len() - j,
    {
        proof {
            let cur = orig.take(j as int + 1);
            assert(cur.drop_last() =~= orig.take(j as int));
            assert(cur.last() == orig[j as int]);
            assert(rest@[0] == orig[j as int]);
            assert(rest@.skip(1) =~= orig.skip(j as int + 1));
        }
        let ghost pre = out.deep_view();
        let v = rest.remove(0);
        match clean_markup(v.t.as_str()) {
            Some(t) => {
                let ghost tv = t@;
                out.push(t);
                proof {
                    assert(out.deep_view() =~= pre.push(tv));
                    assert(vis_list_texts(orig.take(j as int + 1)) == vis_list_texts(
                        orig.take(j as int),
                    ) + seq![tv]);
                    assert(pre.push(tv) =~= old(out).deep_view() + vis_list_texts(
                        orig.take(j as int + 1),
                    ));
                }
            },
            None => {
                proof {
                    assert(out.deep_view() =~= old(out).deep_view() + vis_list_texts(
                        orig.take(j as int + 1),
                    ));
                }
            },
        }
        j = j + 1;
    }
    proof {
        assert(orig.take(orig.len() as int) =~= orig);
    }
}

/// Append the cleaned example texts of one defining-text array.
fn append_example_texts(out: &mut Vec<String>, dts: Vec<DtElement>)
    ensures
        final(out).deep_view() == old(out).deep_view() + dt_example_texts(dts@),
{
    let ghost orig = dts@;
    let mut rest = dts;
    let mut j: usize = 0;
    proof {
        assert(orig.skip(0) =~= orig);
        assert(orig.take(0) =~= Seq::<DtElement>::empty());
        assert(out.deep_view() =~= old(out).deep_view() + dt_example_texts(orig.take(0)));
    }
    let n = rest.len();
    while j < n
        invariant
            0 <= j <= orig.len(),
            n == orig.len(),
            rest@ == orig.skip(j as int),
            out.deep_view() == old(out).deep_view() + dt_example_texts(orig.take(j as int)),
        decreases orig.len() - j,
    {
        proof {
            let cur = orig.take(j as int + 1);
            assert(cur.drop_last() =~= orig.take(j as int));
            assert(cur.last() == orig[j as int]);
            assert(rest@[0] == orig[j as int]);
            assert(rest@.skip(1) =~= orig.skip(j as int + 1));
        }
        let ghost pre = out.deep_view();
        let elem = rest.remove(0);
        match elem {
            DtElement::Text(_) => {
                proof {
                    assert(out.deep_view() =~= old(out).deep_view() + dt_example_texts(
                        orig.take(j as int + 1),
                    ));
                }
            },
            DtElement::Vis(vs) => {
                append_vis_list(out, vs);
                proof {
                    assert(pre + vis_list_texts(orig[j as int]->Vis_0@) =~= old(out).deep_view()
                        + dt_example_texts(orig.take(j as int + 1)));
                }
            },
        }
        j = j + 1;
    }
    proof {
        assert(orig.take(orig.len() as int) =~= orig);
    }
}

/// The defining-text arrays of all sections of an entry, in order.
fn collect_sections_dts(defs: Vec<CollegiateDefSection>) -> (r: Vec<Vec<DtElement>>)
    ensures
        r@ == sections_dts(defs@),
{
    let ghost orig = defs@;
    let mut rest = defs;
    let mut out: Vec<Vec<DtElement>> = Vec::new();
    let mut i: usize = 0;
    proof {
        assert(orig.skip(0) =~= orig);
        assert(orig.take(0) =~= Seq::<CollegiateDefSection>::empty());
        assert(out@ =~= sections_dts(orig.take(0)));
    }
    let n = rest.len();
    while i < n
        invariant
            0 <= i <= orig.len(),
            n == orig.len(),
            rest@ == orig.skip(i as int),
            out@ == sections_dts(orig.take(i as int)),
        decreases orig.len() - i,
    {
        proof {
            let cur = orig.take(i as int + 1);
            assert(cur.drop_last() =~= orig.take(i as int));
            assert(cur.last() == orig[i as int]);
            assert(rest@[0] == orig[i as int]);
            assert(rest@.skip(1) =~= orig.skip(i as int + 1));
        }
        let sec = rest.remove(0);
        let mut dts = sec.into_dts();
        out.append(&mut dts);
        i = i + 1;
    }
    proof {
        assert(orig.take(orig.len() as int) =~= orig);
    }
    out
}

/// The cleaned definition texts of several defining-text arrays.
fn collect_text_defs(arrs: Vec<Vec<DtElement>>) -> (r: Vec<String>)
    ensures
        r.deep_view() == all_dt_texts(arrs@),
{
    let ghost orig = arrs@;
    let mut rest = arrs;
    let mut out: Vec<String> = Vec::new();
    let mut i: usize = 0;
    proof {
        assert(orig.skip(0) =~= orig);
        assert(orig.take(0) =~= Seq::<Vec<DtElement>>::empty());
        assert(out.deep_view() =~= all_dt_texts(orig.take(0)));
    }
    let n = rest.len();
    while i < n
        invariant
            0 <= i <= orig.len(),
            n == orig.len(),
            rest@ == orig.skip(i as int),
            out.deep_view() == all_dt_texts(orig.take(i as int)),
        decreases orig.len() - i,
    {
        proof {
            let cur = orig.take(i as int + 1);
            assert(cur.drop_last() =~= orig.take(i as int));
            assert(cur.last() == orig[i as int]);
            assert(rest@[0] == orig[i as int]);
            assert(rest@.skip(1) =~= orig.skip(i as int + 1));
        }
        let arr = rest.remove(0);
        append_dt_texts(&mut out, arr);
        i = i + 1;
    }
    proof {
        assert(orig.take(orig.len() as int) =~= orig);
    }
    out
}

/// The cleaned example texts of several defining-text arrays.
fn collect_example_texts(arrs: Vec<Vec<DtElement>>) -> (r: Vec<String>)
    ensures
        r.deep_view() == all_example_texts(arrs@),
{
    let ghost orig = arrs@;
    let mut rest = arrs;
    let mut out: Vec<String> = Vec::new();
    let mut i: usize = 0;
    proof {
        assert(orig.skip(0) =~= orig);
        assert(orig.take(0) =~= Seq::<Vec<DtElement>>::empty());
        assert(out.deep_view() =~= all_example_texts(orig.take(0)));
    }
    let n = rest.len();
    while i < n
        invariant
            0 <= i <= orig.len(),
            n == orig.len(),
            rest@ == orig.skip(i as int),
            out.deep_view() == all_example_texts(orig.take(i as int)),
        decreases orig.len() - i,
    {
        proof {
            let cur = orig.take(i as int + 1);
            assert(cur.drop_last() =~= orig.take(i as int));
            assert(cur.last() == orig[i as int]);
            assert(rest@[0] == orig[i as int]);
            assert(rest@.skip(1) =~= orig.skip(i as int + 1));
        }
        let arr = rest.remove(0);
        append_example_texts(&mut out, arr);
        i = i + 1;
    }
    proof {
        assert(orig.take(orig.len() as int) =~= orig);
    }
    out
}

/// The words of all synonym or antonym groups, flattened in order.
fn flatten_groups(groups: Vec<Vec<String>>) -> (r: Vec<String>)
    ensures
        r.deep_view() == flat_words(groups@),
{
    let ghost orig = groups@;
    let mut rest = groups;
    let mut out: Vec<String> = Vec::new();
    let mut i: usize = 0;
    proof {
        assert(orig.skip(0) =~= orig);
        assert(orig.take(0) =~= Seq::<Vec<String>>::empty());
        assert(out.deep_view() =~= flat_words(orig.take(0)));
    }
    let n = rest.len();
    while i < n
        invariant
            0 <= i <= orig.len(),
            n == orig.len(),
            rest@ == orig.skip(i as int),
            out.deep_view() == flat_words(orig.take(i as int)),
        decreases orig.len() - i,
    {
        proof {
            let cur = orig.take(i as int + 1);
            assert(cur.drop_last() =~= orig.take(i as int));
            assert(cur.last() == orig[i as int]);
            assert(rest@[0] == orig[i as int]);
            assert(rest@.skip(1) =~= orig.skip(i as int + 1));
        }
        let ghost pre = out.deep_view();
        let mut group = rest.remove(0);
        let ghost gv = group.deep_view();
        out.append(&mut group);
        proof {
            assert(out.deep_view() =~= pre + gv);
            assert(pre + gv =~= flat_words(orig.take(i as int + 1)));
        }
        i = i + 1;
    }
    proof {
        assert(orig.take(orig.len() as int) =~= orig);
    }
    out
}

/// Wrap definition texts as definitions; the dictionary provider reports
/// no part of speech, so that field stays empty.
fn wrap_definitions(texts: Vec<String>) -> (r: Vec<Definition>)
    ensures
        definition_texts(r@) == texts.deep_view(),
        forall|i: int| 0 <= i < r@.len() ==> (#[trigger] r@[i]).part_of_speech@.len() == 0,
{
    let ghost orig = texts.deep_view();
    let ghost origv = texts@;
    let mut rest = texts;
    let mut out: Vec<Definition> = Vec::new();
    let mut i: usize = 0;
    proof {
        assert(origv.skip(0) =~= origv);
    }
    let n = rest.len();
    while i < n
        invariant
            0 <= i <= origv.len(),
            n == origv.len(),
            orig.len() == origv.len(),
            forall|j: int| 0 <= j < origv.len() ==> (#[trigger] origv[j])@ == orig[j],
            rest@ == origv.skip(i as int),
            out@.len() == i,
            forall|j: int| 0 <= j < i ==> (#[trigger] out@[j]).definition@ == orig[j],
            forall|j: int| 0 <= j < i ==> (#[trigger] out@[j]).part_of_speech@.len() == 0,
        decreases origv.len() - i,
    {
        proof {
            assert(rest@[0] == origv[i as int]);
            assert(rest@.skip(1) =~= origv.skip(i as int + 1));
        }
        let d = rest.remove(0);
        out.push(Definition { definition: d, part_of_speech: String::new() });
        i = i + 1;
    }
    proof {
        assert(definition_texts(out@) =~= orig);
    }
    out
}

/// Extract a definitions response from a dictionary lookup: the first
/// entry's resolved headword, with its short definitions or, when there are
/// none, the cleaned defining texts of its senses. `None` exactly when the
/// response holds no entry.
pub fn definitions_from_entries(entries: Vec<CollegiateEntry>) -> (r: Option<DefinitionResponse>)
    ensures
        match r {
            Some(resp) => {
                &&& entries@.len() > 0
                &&& resp.word@ == entries@[0].meta.id@
                &&& definition_texts(resp.definitions@) == (if entries@[0].shortdef@.len() > 0 {
                    entries@[0].shortdef.deep_view()
                } else {
                    all_dt_texts(sections_dts(entries@[0].def@))
                })
            },
            None => entries@.len() == 0,
        },
{
    let mut rest = entries;
    if rest.len() == 0 {
        return None;
    }
    let entry = rest.remove(0);
    let word = entry.meta.id;
    let texts = if entry.shortdef.len() > 0 {
        entry.shortdef
    } else {
        let arrs = collect_sections_dts(entry.def);
        collect_text_defs(arrs)
    };
    let definitions = wrap_definitions(texts);
    Some(DefinitionResponse { word, definitions })
}

/// Extract an examples response from a dictionary lookup: the first entry's
/// resolved headword with the cleaned texts of its verbal illustrations.
/// `None` exactly when the response holds no entry.
pub fn examples_from_entries(entries: Vec<CollegiateEntry>) -> (r: Option<ExampleResponse>)
    ensures
        match r {
            Some(resp) => {
                &&& entries@.len() > 0
                &&& resp.word@ == entries@[0].meta.id@
                &&& resp.examples.deep_view() == all_example_texts(sections_dts(entries@[0].def@))
            },
            None => entries@.len() == 0,
        },
{
    let mut rest = entries;
    if rest.len() == 0 {
        return None;
    }
    let entry = rest.remove(0);
    let word = entry.meta.id;
    let arrs = collect_sections_dts(entry.def);
    let examples = collect_example_texts(arrs);
    Some(ExampleResponse { word, examples })
}

/// Extract a synonyms response from a thesaurus lookup: the first entry's
/// resolved headword with its synonym groups flattened in order. `None`
/// exactly when the response holds no entry.
pub fn synonyms_from_entries(entries: Vec<ThesaurusEntry>) -> (r: Option<SynonymResponse>)
    ensures
        match r {
            Some(resp) => {
                &&& entries@.len() > 0
                &&& resp.word@ == entries@[0].meta.id@
                &&& resp.synonyms.deep_view() == flat_words(entries@[0].meta.syns@)
            },
            None => entries@.len() == 0,
        },
{
    let mut rest = entries;
    if rest.len() == 0 {
        return None;
    }
    let entry = rest.remove(0);
    let word = entry.meta.id;
    let synonyms = flatten_groups(entry.meta.syns);
    Some(SynonymResponse { word, synonyms })
}

/// Extract an antonyms response from a thesaurus lookup: the first entry's
/// resolved headword with its antonym groups flattened in order. `None`
/// exactly when the response holds no entry.
pub fn antonyms_from_entries(entries: Vec<ThesaurusEntry>) -> (r: Option<AntonymResponse>)
    ensures
        match r {
            Some(resp) => {
                &&& entries@.len() > 0
                &&& resp.word@ == entries@[0].meta.id@
                &&& resp.antonyms.deep_view() == flat_words(entries@[0].meta.ants@)
            },
            None => entries@.len() == 0,
        },
{
    let mut rest = entries;
    if rest.len() == 0 {
        return None;
    }
    let entry = rest.remove(0);
    let word = entry.meta.id;
    let antonyms = flatten_groups(entry.meta.ants);
    Some(AntonymResponse { word, antonyms })
}

} // verus!
