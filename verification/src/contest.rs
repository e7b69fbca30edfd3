//! The description of a contest: the sections that a plan must hold and the criteria of the judges.

use crate::binary64::{fraction, product, quotient, sum, Binary64, INFINITE};
use crate::render::{fixed, fixed_string};
use crate::text::{decimal, decimal_string, join, join_strings, views};
use vstd::prelude::*;
use vstd::string::*;

verus! {

/// A section of the plan.
#[derive(Debug, Clone)]
pub struct Section {
    pub id: String,
    pub title: String,
    pub guide: String,
    /// Recommended length in characters. Zero means unspecified.
    pub chars: usize,
    pub required: bool,
}

/// A criterion of the judges.
#[derive(Debug, Clone)]
pub struct Criterion {
    pub id: String,
    pub name: String,
    /// Weight. Only its share in the sum of the weights counts.
    pub weight: Binary64,
    pub guide: String,
}

/// A contest.
#[derive(Debug, Clone)]
pub struct Spec {
    /// Format name.
    pub name: String,
    /// Review body and context. Inserted verbatim into the prompts.
    pub context: String,
    /// Note on where the scoring comes from.
    pub scoring_source: String,
    /// Overall length guide in characters. Zero means unspecified.
    pub total_chars: usize,
    /// Minimum number of citations. Zero means no check.
    pub min_citations: usize,
    /// Whether at least one table is required.
    pub require_table: bool,
    /// Approach angles for generation diversity.
    pub angles: Vec<String>,
    /// Score-band descriptors. Defaults are used where there are none.
    pub bands: Vec<String>,
    pub sections: Vec<Section>,
    pub criteria: Vec<Criterion>,
}

/// Why a contest description is refused.
#[derive(Debug, Clone, Copy, PartialEq, Eq, Structural)]
pub enum SpecError {
    NoSections,
    NoCriteria,
    BadWeight,
    DuplicateCriterion,
}

impl SpecError {
    /// The message for the error.
    pub open spec fn text(self) -> Seq<char> {
        match self {
            SpecError::NoSections => "sections is empty"@,
            SpecError::NoCriteria => "criteria is empty"@,
            SpecError::BadWeight => "all criteria weights must be greater than 0 and finite"@,
            SpecError::DuplicateCriterion => "duplicate criteria id"@,
        }
    }

    /// The message for the error.
    pub fn message(&self) -> (s: String)
        ensures
            s@ == self.text(),
    {
        match self {
            SpecError::NoSections => String::from_str("sections is empty"),
            SpecError::NoCriteria => String::from_str("criteria is empty"),
            SpecError::BadWeight => String::from_str(
                "all criteria weights must be greater than 0 and finite",
            ),
            SpecError::DuplicateCriterion => String::from_str("duplicate criteria id"),
        }
    }
}

/// The requiredness of a section that does not state it.
pub fn default_true() -> (r: bool)
    ensures
        r,
{
    true
}

/// Whether a weight is greater than zero and finite.
pub open spec fn usable_weight(w: Binary64) -> bool {
    0 < w.bits < INFINITE
}

/// Whether no two criteria have the same id.
pub open spec fn distinct_ids(criteria: Seq<Criterion>) -> bool {
    forall|i: int, j: int|
        #![trigger criteria[i], criteria[j]]
        0 <= i < j < criteria.len() ==> criteria[i].id@ != criteria[j].id@
}

/// Whether all weights are greater than zero and finite.
pub open spec fn usable_weights(criteria: Seq<Criterion>) -> bool {
    forall|i: int| 0 <= i < criteria.len() ==> usable_weight(#[trigger] criteria[i].weight)
}

/// What a parsed contest description is answered with.
pub open spec fn load_error(sp: Spec) -> Option<SpecError> {
    if sp.sections@.len() == 0 {
        Some(SpecError::NoSections)
    } else if sp.criteria@.len() == 0 {
        Some(SpecError::NoCriteria)
    } else if !usable_weights(sp.criteria@) {
        Some(SpecError::BadWeight)
    } else if !distinct_ids(sp.criteria@) {
        Some(SpecError::DuplicateCriterion)
    } else {
        None
    }
}

/// The sum of the weights of the criteria, added up in order.
pub open spec fn weights_sum(criteria: Seq<Criterion>) -> Binary64
    decreases criteria.len(),
{
    if criteria.len() == 0 {
        Binary64 { bits: 0 }
    } else {
        sum(weights_sum(criteria.drop_last()), criteria.last().weight)
    }
}

pub const BAND_AWARD: &'static str =
    "90-100: Actual award-winning level. Every claim is backed by verifiable evidence, exceeding the evaluation criteria.";

pub const BAND_FINALIST: &'static str =
    "75-89: Finalist level. Core evidence is present but some claims are unverified.";

pub const BAND_BORDERLINE: &'static str =
    "60-74: Borderline for passing document screening. Has structure, but evidence is shallow and mixed with generalities.";

pub const BAND_REJECTION: &'static str =
    "40-59: Rejection range. Mostly abstract statements, lacking figures and examples.";

pub const BAND_FAILURE: &'static str =
    "0-39: Fails to meet requirements. Irrelevant to the evaluation criteria or content is empty.";

/// The score bands of a contest that states none.
pub open spec fn default_band_texts() -> Seq<Seq<char>> {
    seq![BAND_AWARD@, BAND_FINALIST@, BAND_BORDERLINE@, BAND_REJECTION@, BAND_FAILURE@]
}

/// The score bands of a contest that states none.
pub fn default_bands() -> (v: Vec<String>)
    ensures
        views(v@) == default_band_texts(),
{
    let mut v: Vec<String> = Vec::new();
    v.push(String::from_str(BAND_AWARD));
    v.push(String::from_str(BAND_FINALIST));
    v.push(String::from_str(BAND_BORDERLINE));
    v.push(String::from_str(BAND_REJECTION));
    v.push(String::from_str(BAND_FAILURE));
    assert(views(v@) =~= default_band_texts());
    v
}

pub(crate) proof fn lemma_default_bands(i: int)
    requires
        0 <= i < default_band_texts().len(),
    ensures
        !default_band_texts()[i].contains('<'),
{
    reveal_strlit(
        "90-100: Actual award-winning level. Every claim is backed by verifiable evidence, exceeding the evaluation criteria.",
    );
    reveal_strlit(
        "75-89: Finalist level. Core evidence is present but some claims are unverified.",
    );
    reveal_strlit(
        "60-74: Borderline for passing document screening. Has structure, but evidence is shallow and mixed with generalities.",
    );
    reveal_strlit(
        "40-59: Rejection range. Mostly abstract statements, lacking figures and examples.",
    );
    reveal_strlit(
        "0-39: Fails to meet requirements. Irrelevant to the evaluation criteria or content is empty.",
    );
}

/// How a section is presented to the writer.
pub open spec fn section_text(s: Section) -> Seq<char> {
    let head = "## "@ + s.title@ + "\n- Writing guide: "@ + s.guide@;
    let sized = if s.chars > 0 {
        head + "\n- Recommended length: approx. "@ + decimal(s.chars as nat) + " chars"@
    } else {
        head
    };
    if s.required {
        sized + "\n- Required section"@
    } else {
        sized
    }
}

/// How a criterion is presented: its weight is its percentage of the sum of all weights.
pub open spec fn criterion_text(c: Criterion, total: Binary64) -> Seq<char> {
    "- id=\""@ + c.id@ + "\" | "@ + c.name@ + " (weight "@ + fixed(
        product(quotient(c.weight, total), fraction(100, 1)),
        0,
    ) + "%) : "@ + c.guide@
}

/// The sections of a contest as the writer sees them.
pub open spec fn sections_text(sections: Seq<Section>) -> Seq<char> {
    join(sections.map_values(|s: Section| section_text(s)), "\n\n"@)
}

/// The criteria of a contest as writer and judge see them.
pub open spec fn rubric_text(criteria: Seq<Criterion>) -> Seq<char> {
    let total = weights_sum(criteria);
    join(criteria.map_values(|c: Criterion| criterion_text(c, total)), "\n"@)
}

/// The score bands of a contest as the judge sees them.
pub open spec fn bands_text(bands: Seq<String>) -> Seq<char> {
    if bands.len() == 0 {
        join(default_band_texts(), "\n"@)
    } else {
        join(views(bands), "\n"@)
    }
}

fn section_string(s: &Section) -> (line: String)
    ensures
        line@ == section_text(*s),
{
    let mut line = String::from_str("## ");
    line.append(s.title.as_str());
    line.append("\n- Writing guide: ");
    line.append(s.guide.as_str());
    if s.chars > 0 {
        line.append("\n- Recommended length: approx. ");
        line.append(decimal_string(s.chars as u64).as_str());
        line.append(" chars");
    }
    if s.required {
        line.append("\n- Required section");
    }
    line
}

fn criterion_string(c: &Criterion, total: Binary64) -> (line: String)
    requires
        c.weight.nonneg(),
        total.nonneg(),
    ensures
        line@ == criterion_text(*c, total),
{
    let share = c.weight.over(total).times(Binary64::ratio(100, 1));
    let mut line = String::from_str("- id=\"");
    line.append(c.id.as_str());
    line.append("\" | ");
    line.append(c.name.as_str());
    line.append(" (weight ");
    line.append(fixed_string(share, 0).as_str());
    line.append("%) : ");
    line.append(c.guide.as_str());
    line
}

impl Spec {
    /// Whether no weight is negative. Every contest that `load` lets through is so.
    pub open spec fn wf(self) -> bool {
        forall|i: int| 0 <= i < self.criteria@.len() ==> (#[trigger] self.criteria@[i]).weight.nonneg()
    }

    /// Admits a parsed contest description, or says why it is refused.
    pub fn load(parsed: Spec) -> (r: Result<Spec, SpecError>)
        ensures
            match load_error(parsed) {
                Some(e) => r == Err::<Spec, SpecError>(e),
                None => r == Ok::<Spec, SpecError>(parsed) && parsed.wf(),
            },
    {
        if parsed.sections.len() == 0 {
            return Err(SpecError::NoSections);
        }
        if parsed.criteria.len() == 0 {
            return Err(SpecError::NoCriteria);
        }
        let n: usize = parsed.criteria.len();
        let mut i: usize = 0;
        while i < n
            invariant
                n == parsed.criteria@.len(),
                i <= n,
                parsed.sections@.len() > 0,
                n > 0,
                forall|k: int| 0 <= k < i ==> usable_weight(#[trigger] parsed.criteria@[k].weight),
            decreases n - i,
        {
            let w = parsed.criteria[i].weight;
            if !(0 < w.bits && w.bits < INFINITE) {
                assert(!usable_weight(parsed.criteria@[i as int].weight));
                return Err(SpecError::BadWeight);
            }
            i += 1;
        }
        let mut j: usize = 0;
        while j < n
            invariant
                n == parsed.criteria@.len(),
                j <= n,
                parsed.sections@.len() > 0,
                n > 0,
                usable_weights(parsed.criteria@),
                forall|a: int, b: int|
                    #![trigger parsed.criteria@[a], parsed.criteria@[b]]
                    0 <= a < b < j ==> parsed.criteria@[a].id@ != parsed.criteria@[b].id@,
            decreases n - j,
        {
            let mut k: usize = 0;
            while k < j
                invariant
                    n == parsed.criteria@.len(),
                    k <= j < n,
                    parsed.sections@.len() > 0,
                    usable_weights(parsed.criteria@),
                    forall|a: int|
                        #![trigger parsed.criteria@[a]]
                        0 <= a < k ==> parsed.criteria@[a].id@ != parsed.criteria@[j as int].id@,
                decreases j - k,
            {
                if parsed.criteria[k].id == parsed.criteria[j].id {
                    assert(!distinct_ids(parsed.criteria@)) by {
                        assert(parsed.criteria@[k as int].id@ == parsed.criteria@[j as int].id@);
                    }
                    return Err(SpecError::DuplicateCriterion);
                }
                k += 1;
            }
            j += 1;
        }
        assert(parsed.wf()) by {
            assert forall|i: int| 0 <= i < parsed.criteria@.len() implies (
            #[trigger] parsed.criteria@[i]).weight.nonneg() by {
                assert(usable_weight(parsed.criteria@[i].weight));
            }
        }
        Ok(parsed)
    }

    /// The sum of the weights.
    pub fn weight_sum(&self) -> (r: Binary64)
        requires
            self.wf(),
        ensures
            r == weights_sum(self.criteria@),
            r.nonneg(),
    {
        let mut r = Binary64 { bits: 0 };
        let mut i: usize = 0;
        while i < self.criteria.len()
            invariant
                self.wf(),
                i <= self.criteria@.len(),
                r.nonneg(),
                r == weights_sum(self.criteria@.take(i as int)),
            decreases self.criteria@.len() - i,
        {
            assert(self.criteria@.take(i + 1).drop_last() == self.criteria@.take(i as int));
            assert(self.criteria@[i as int].weight.nonneg());
            r = r.plus(self.criteria[i].weight);
            i += 1;
        }
        assert(self.criteria@.take(i as int) == self.criteria@);
        r
    }

    /// The score bands as the judge sees them.
    pub fn bands_prompt(&self) -> (s: String)
        ensures
            s@ == bands_text(self.bands@),
    {
        if self.bands.len() == 0 {
            join_strings(&default_bands(), "\n")
        } else {
            join_strings(&self.bands, "\n")
        }
    }

    /// The sections as the writer sees them.
    pub fn sections_prompt(&self) -> (s: String)
        ensures
            s@ == sections_text(self.sections@),
    {
        let mut v: Vec<String> = Vec::new();
        let mut i: usize = 0;
        while i < self.sections.len()
            invariant
                i <= self.sections@.len(),
                v@.len() == i,
                forall|k: int| 0 <= k < i ==> (#[trigger] v@[k])@ == section_text(self.sections@[k]),
            decreases self.sections@.len() - i,
        {
            v.push(section_string(&self.sections[i]));
            i += 1;
        }
        assert(views(v@) =~= self.sections@.map_values(|s: Section| section_text(s)));
        join_strings(&v, "\n\n")
    }

    /// The criteria as writer and judge see them.
    pub fn rubric_prompt(&self) -> (s: String)
        requires
            self.wf(),
        ensures
            s@ == rubric_text(self.criteria@),
    {
        let total = self.weight_sum();
        let mut v: Vec<String> = Vec::new();
        let mut i: usize = 0;
        while i < self.criteria.len()
            invariant
                self.wf(),
                total.nonneg(),
                i <= self.criteria@.len(),
                v@.len() == i,
                forall|k: int|
                    0 <= k < i ==> (#[trigger] v@[k])@ == criterion_text(self.criteria@[k], total),
            decreases self.criteria@.len() - i,
        {
            assert(self.criteria@[i as int].weight.nonneg());
            v.push(criterion_string(&self.criteria[i], total));
            i += 1;
        }
        assert(views(v@) =~= self.criteria@.map_values(|c: Criterion| criterion_text(c, total)));
        join_strings(&v, "\n")
    }
}

} // verus!
