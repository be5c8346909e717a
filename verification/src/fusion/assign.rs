//! Which detected region owns which text fact.

use vstd::multiset::Multiset;
use vstd::prelude::*;

use crate::chars::{push_decimal, push_signed, push_text, text_of_decimal, text_of_signed};
use crate::config::FusionConfig;
use crate::error::LineError;
use crate::geometry::{narrow, narrowed, Bbox};
use crate::layout::{is_probability, known_class, LayoutDetection, LayoutLabel, CLASS_COUNT};
use crate::line::fragment::{
    lemma_owned_by_multiset, lemma_owned_push, models, owned, owned_upto, sort_fragments,
    FragmentModel, FragmentOrder, LineFragment,
};
use crate::line::metrics::{lemma_runs_sound, runs_fault};
use crate::line::scripts::{
    attaching_keeps_runs, lemma_singles_keep, lemma_singles_sound, list_singles, singles,
    sound_runs_are_attached, with_scripts,
};
use crate::sorting::{sort, sorted, sorting_orders_and_keeps, Order, Sorter};
use crate::texts::{push_to, sort_texts, text_set, texts};
use crate::types::{TextItem, WHOLE};

use super::score::{
    candidate_wins, measure, measure_of, score, score_of, wins, AssignmentScore, Measure,
    OutlineMeasures,
};

verus! {

/// Reasons that an untrusted model detection cannot become a fusion seed.
#[derive(Debug, Clone, Copy, PartialEq, Eq, Structural)]
pub enum SeedError {
    /// Page numbers start at one.
    InvalidPageNumber,
    /// A model row references an unsupported class index.
    InvalidClass { class_id: i64 },
    /// Model confidence must already be a probability.
    InvalidConfidence,
    /// Model geometry must be non-degenerate and on the page.
    InvalidGeometry,
}

impl SeedError {
    /// Human-readable reason.
    pub open spec fn text(self) -> Seq<char> {
        match self {
            SeedError::InvalidPageNumber => "page number must be greater than zero"@,
            SeedError::InvalidClass { class_id } => "class ID "@ + text_of_signed(class_id as int)
                + " is outside the fixed model schema"@,
            SeedError::InvalidConfidence => "confidence must be finite and within [0, 1]"@,
            SeedError::InvalidGeometry => "detection geometry lies outside the page"@,
        }
    }

    /// Human-readable reason.
    pub fn message(&self) -> (text: String)
        ensures
            text@ == self.text(),
    {
        let mut text: String = String::new();
        match self {
            SeedError::InvalidPageNumber => {
                push_text(&mut text, "page number must be greater than zero");
            },
            SeedError::InvalidClass { class_id } => {
                push_text(&mut text, "class ID ");
                push_signed(&mut text, *class_id);
                push_text(&mut text, " is outside the fixed model schema");
            },
            SeedError::InvalidConfidence => {
                push_text(&mut text, "confidence must be finite and within [0, 1]");
            },
            SeedError::InvalidGeometry => {
                push_text(&mut text, "detection geometry lies outside the page");
            },
        }
        assert(text@ =~= self.text());
        text
    }
}

/// Why a detection cannot become a seed.
pub open spec fn seed_error(page_number: u32, detection: LayoutDetection, page: Bbox) -> Option<
    SeedError,
> {
    if page_number == 0 {
        Some(SeedError::InvalidPageNumber)
    } else if !known_class(detection.class_id as int) {
        Some(SeedError::InvalidClass { class_id: detection.class_id })
    } else if !is_probability(detection.confidence as int) {
        Some(SeedError::InvalidConfidence)
    } else if !detection.bbox.valid() || !page.valid() || !page.holds(detection.bbox) {
        Some(SeedError::InvalidGeometry)
    } else {
        match detection.outline {
            Some(outline) => if outline.area <= 0 || !page.holds(outline.bbox) {
                Some(SeedError::InvalidGeometry)
            } else {
                None
            },
            None => None,
        }
    }
}

/// Validates a source model row.
pub fn check_seed(page_number: u32, detection: &LayoutDetection, page: &Bbox) -> (checked: Result<
    (),
    SeedError,
>)
    ensures
        checked is Ok <==> seed_error(page_number, *detection, *page) is None,
        checked matches Err(error) ==> seed_error(page_number, *detection, *page) == Some(error),
{
    if page_number == 0 {
        return Err(SeedError::InvalidPageNumber);
    }
    if detection.class_id < 0 || detection.class_id >= CLASS_COUNT {
        return Err(SeedError::InvalidClass { class_id: detection.class_id });
    }
    if detection.confidence < 0 || detection.confidence > WHOLE as i64 {
        return Err(SeedError::InvalidConfidence);
    }
    if !detection.bbox.is_valid() || !page.is_valid() || !page.contains(&detection.bbox) {
        return Err(SeedError::InvalidGeometry);
    }
    if let Some(outline) = &detection.outline {
        if outline.area <= 0 || !page.contains(&outline.bbox) {
            return Err(SeedError::InvalidGeometry);
        }
    }
    Ok(())
}

/// Detections in the order of the model's answer.
pub struct SourceOrder;

impl Order<LayoutDetection> for SourceOrder {
    open spec fn lt(&self, a: LayoutDetection, b: LayoutDetection) -> bool {
        a.source_detection_index < b.source_detection_index
    }

    proof fn is_strict_weak(&self, a: LayoutDetection, b: LayoutDetection, c: LayoutDetection) {
    }
}

impl Sorter<LayoutDetection> for SourceOrder {
    fn precedes(&self, a: &LayoutDetection, b: &LayoutDetection) -> (yes: bool) {
        a.source_detection_index < b.source_detection_index
    }
}

/// What a detection is for.
#[derive(Debug, Clone, Copy, PartialEq, Eq, Structural)]
pub enum Role {
    /// It may own text.
    Body,
    /// It marks a formula inside a line and owns nothing.
    Formula,
    /// It shows the extent of a list of references and owns nothing.
    Reference,
}

/// What detections with a label are for.
pub open spec fn role_of(label: LayoutLabel) -> Role {
    match label {
        LayoutLabel::InlineFormula => Role::Formula,
        LayoutLabel::Reference => Role::Reference,
        _ => Role::Body,
    }
}

/// What detections with a label are for.
fn find_role(label: &LayoutLabel) -> (role: Role)
    ensures
        role == role_of(*label),
{
    match label {
        LayoutLabel::InlineFormula => Role::Formula,
        LayoutLabel::Reference => Role::Reference,
        _ => Role::Body,
    }
}

/// The usable detections, of the first `n`, that are for one thing.
pub open spec fn usable_upto(
    page_number: u32,
    detections: Seq<LayoutDetection>,
    page: Bbox,
    role: Role,
    n: int,
) -> Seq<LayoutDetection>
    decreases n,
{
    if n <= 0 {
        Seq::empty()
    } else {
        let before = usable_upto(page_number, detections, page, role, n - 1);
        let d = detections[n - 1];
        if seed_error(page_number, d, page) is None && role_of(d.label) == role {
            before.push(d)
        } else {
            before
        }
    }
}

/// The usable detections that are for one thing, in the order of the model's answer.
pub open spec fn usable(
    page_number: u32,
    detections: Seq<LayoutDetection>,
    page: Bbox,
    role: Role,
) -> Seq<LayoutDetection> {
    sorted(
        usable_upto(page_number, detections, page, role, detections.len() as int),
        SourceOrder,
    )
}

/// What is said of an unusable detection.
pub open spec fn complaint(d: LayoutDetection, error: SeedError) -> Seq<char> {
    (if d.label is InlineFormula {
        "ignored inline formula detection "@
    } else {
        "ignored layout detection "@
    }) + text_of_decimal(d.source_detection_index as nat) + ": "@ + error.text()
}

/// What is said of the first `n` detections.
pub open spec fn complaints_upto(
    page_number: u32,
    detections: Seq<LayoutDetection>,
    page: Bbox,
    n: int,
) -> Seq<Seq<char>>
    decreases n,
{
    if n <= 0 {
        Seq::empty()
    } else {
        let before = complaints_upto(page_number, detections, page, n - 1);
        match seed_error(page_number, detections[n - 1], page) {
            Some(error) => before.push(complaint(detections[n - 1], error)),
            None => before,
        }
    }
}

/// Stable evidence explaining one selected owner and its alternatives.
#[derive(Debug, Clone, Copy, PartialEq, Eq, Structural)]
pub struct AssignEvidence {
    pub selected: AssignmentScore,
    pub alternative_count: usize,
}

/// The page on which fragments are assigned.
pub ghost struct Assignment {
    pub page: Bbox,
    pub config: FusionConfig,
    pub measures: Seq<OutlineMeasures>,
    pub seeds: Seq<LayoutDetection>,
    pub fragments: Seq<FragmentModel>,
}

/// The fragments of a page whose owners are decided: each text fact by itself,
/// scripts with the text they belong to.
pub open spec fn separate(items: Seq<TextItem>, page: Bbox) -> Seq<FragmentModel> {
    let width = narrowed(page.wide());
    with_scripts(singles(items, items.len() as int, width), width)
}

impl Assignment {
    /// The score of a fragment in a region.
    pub open spec fn score(self, i: int, seed: int) -> Option<AssignmentScore> {
        let f = self.fragments[i];
        let d = self.seeds[seed];
        score_of(
            d,
            measure_of(self.measures, d, i, f.bbox, f.baseline.start, f.baseline.end),
            f.bbox,
            self.page,
            self.config,
        )
    }

    /// The best region for a fragment among the first `n`, with its score.
    pub open spec fn best_upto(self, i: int, n: int) -> Option<(int, AssignmentScore)>
        decreases n,
    {
        if n <= 0 {
            None
        } else {
            let before = self.best_upto(i, n - 1);
            match self.score(i, n - 1) {
                None => before,
                Some(scored) => match before {
                    None => Some((n - 1, scored)),
                    Some((other, best)) => if wins(
                        scored,
                        self.seeds[n - 1],
                        best,
                        self.seeds[other],
                    ) {
                        Some((n - 1, scored))
                    } else {
                        before
                    },
                },
            }
        }
    }

    /// Number of regions, among the first `n`, to which a fragment may belong.
    pub open spec fn choices_upto(self, i: int, n: int) -> int
        decreases n,
    {
        if n <= 0 {
            0
        } else {
            self.choices_upto(i, n - 1) + (if self.score(i, n - 1) is Some {
                1int
            } else {
                0
            })
        }
    }

    /// The region that owns a fragment.
    pub open spec fn owner(self, i: int) -> Option<int> {
        match self.best_upto(i, self.seeds.len() as int) {
            None => None,
            Some((seed, _)) => Some(seed),
        }
    }

    /// Why a region owns a fragment.
    pub open spec fn evidence(self, i: int) -> AssignEvidence {
        AssignEvidence {
            selected: (self.best_upto(i, self.seeds.len() as int)->0).1,
            alternative_count: (self.choices_upto(i, self.seeds.len() as int) - 1) as usize,
        }
    }

    /// Those of the first `n` fragments that a region owns; none owns the rest.
    pub open spec fn fragments_upto(self, seed: Option<int>, n: int) -> Seq<FragmentModel>
        decreases n,
    {
        if n <= 0 {
            Seq::empty()
        } else {
            let before = self.fragments_upto(seed, n - 1);
            if self.owner(n - 1) == seed {
                before.push(self.fragments[n - 1])
            } else {
                before
            }
        }
    }

    /// The evidence, of the first `n` fragments, for a region.
    pub open spec fn evidence_upto(self, seed: int, n: int) -> Seq<AssignEvidence>
        decreases n,
    {
        if n <= 0 {
            Seq::empty()
        } else {
            let before = self.evidence_upto(seed, n - 1);
            if self.owner(n - 1) == Some(seed) {
                before.push(self.evidence(n - 1))
            } else {
                before
            }
        }
    }

    /// What a region owns, in page order.
    pub open spec fn seed_fragments(self, seed: int) -> Seq<FragmentModel> {
        sorted(self.fragments_upto(Some(seed), self.fragments.len() as int), FragmentOrder::Corner)
    }

    /// The fragments that no region owns.
    pub open spec fn residual(self) -> Seq<FragmentModel> {
        self.fragments_upto(None, self.fragments.len() as int)
    }
}

/// One model-backed region that owns zero or more conservative fragments.
#[derive(Debug)]
pub struct BlockSeed {
    pub page_number: u32,
    pub detection: LayoutDetection,
    pub fragments: Vec<LineFragment>,
    pub assignment_evidence: Vec<AssignEvidence>,
}

/// Spelling of the identity of a detected region.
pub open spec fn region_id_of(page: nat, detection: nat) -> Seq<char> {
    "p"@ + text_of_decimal(page) + ":m"@ + text_of_decimal(detection)
}

impl BlockSeed {
    /// The identity of the region.
    pub fn region_id(&self) -> (id: String)
        ensures
            id@ == region_id_of(
                self.page_number as nat,
                self.detection.source_detection_index as nat,
            ),
    {
        let mut id: String = String::new();
        push_text(&mut id, "p");
        push_decimal(&mut id, self.page_number as u64);
        push_text(&mut id, ":m");
        push_decimal(&mut id, self.detection.source_detection_index as u64);
        assert(id@ =~= region_id_of(
            self.page_number as nat,
            self.detection.source_detection_index as nat,
        ));
        id
    }

    /// Scores one conservative fragment when it may belong to the region; `fact`
    /// is the fragment's place in the measures.
    pub fn score(
        &self,
        fragment: &LineFragment,
        fact: usize,
        measures: &Vec<OutlineMeasures>,
        page_bbox: &Bbox,
        config: &FusionConfig,
    ) -> (scored: Option<AssignmentScore>)
        requires
            is_probability(self.detection.confidence as int),
        ensures
            scored == score_of(
                self.detection,
                measure_of(
                    measures@,
                    self.detection,
                    fact as int,
                    fragment.bbox,
                    fragment.baseline.start,
                    fragment.baseline.end,
                ),
                fragment.bbox,
                *page_bbox,
                *config,
            ),
    {
        let measured: Measure = measure(
            measures,
            &self.detection,
            fact,
            &fragment.bbox,
            &fragment.baseline.start,
            &fragment.baseline.end,
        );
        score(&self.detection, &measured, &fragment.bbox, page_bbox, config)
    }
}

/// Final ownership partition from ordinary regions plus non-owning formula rows.
#[derive(Debug)]
pub struct AssignmentResult {
    pub model_seeds: Vec<BlockSeed>,
    pub residual: Vec<LineFragment>,
    /// Extents of lists of references, which own no text.
    pub reference_seeds: Vec<LayoutDetection>,
    pub inline_formulas: Vec<LayoutDetection>,
    pub diagnostics: Vec<String>,
}

/// Deterministic model assignment boundary for one canonical page.
#[derive(Debug, Clone, Copy, PartialEq, Eq, Structural)]
pub struct AssignmentEngine {
    pub page_number: u32,
    pub page_bbox: Bbox,
    pub config: FusionConfig,
}

/// Whether a partition is the one that an engine makes of facts and detections.
pub open spec fn is_assigned(
    result: AssignmentResult,
    engine: AssignmentEngine,
    items: Seq<TextItem>,
    detections: Seq<LayoutDetection>,
    measures: Seq<OutlineMeasures>,
) -> bool {
    let a = engine.assignment(items, detections, measures);
    &&& result.model_seeds@.len() == a.seeds.len()
    &&& forall|k: int|
        #![trigger result.model_seeds@[k]]
        0 <= k < a.seeds.len() ==> {
            &&& result.model_seeds@[k].page_number == engine.page_number
            &&& result.model_seeds@[k].detection == a.seeds[k]
            &&& models(result.model_seeds@[k].fragments@) == a.seed_fragments(k)
            &&& result.model_seeds@[k].assignment_evidence@ == a.evidence_upto(
                k,
                a.fragments.len() as int,
            )
        }
    &&& models(result.residual@) == a.residual()
    &&& result.inline_formulas@ == usable(
        engine.page_number,
        detections,
        engine.page_bbox,
        Role::Formula,
    )
    &&& result.reference_seeds@ == usable(
        engine.page_number,
        detections,
        engine.page_bbox,
        Role::Reference,
    )
    &&& texts(result.diagnostics@) == text_set(
        complaints_upto(
            engine.page_number,
            detections,
            engine.page_bbox,
            detections.len() as int,
        ),
    )
}

impl AssignmentEngine {
    /// Creates an assignment engine from page-local settings.
    pub fn new(page_number: u32, page_bbox: Bbox, config: FusionConfig) -> (engine: AssignmentEngine)
        ensures
            engine == (AssignmentEngine { page_number, page_bbox, config }),
    {
        AssignmentEngine { page_number, page_bbox, config }
    }

    /// What is assigned.
    pub open spec fn assignment(
        self,
        items: Seq<TextItem>,
        detections: Seq<LayoutDetection>,
        measures: Seq<OutlineMeasures>,
    ) -> Assignment {
        Assignment {
            page: self.page_bbox,
            config: self.config,
            measures,
            seeds: usable(self.page_number, detections, self.page_bbox, Role::Body),
            fragments: separate(items, self.page_bbox),
        }
    }

    /// The fragments whose owners are decided: each text fact by itself, short
    /// raised and lowered runs with the text they belong to.
    pub fn fragments(&self, items: &Vec<TextItem>) -> (made: Result<Vec<LineFragment>, LineError>)
        ensures
            match made {
                Ok(fragments) => runs_fault(items@, items@.len() as int) is None && models(
                    fragments@,
                ) == separate(items@, self.page_bbox),
                Err(e) => runs_fault(items@, items@.len() as int) == Some(e),
            },
    {
        let width: i32 = narrow(self.page_bbox.width());
        match list_singles(items, width) {
            Err(e) => Err(e),
            Ok(alone) => {
                proof {
                    lemma_runs_sound(items@, items@.len() as int);
                    lemma_singles_sound(items@, items@.len() as int, width as int);
                    sound_runs_are_attached(models(alone@), width as int);
                }
                LineFragment::attach_scripts(alone, width)
            },
        }
    }

    /// The usable detections that are for one thing.
    fn list_usable(&self, detections: &Vec<LayoutDetection>, role: Role) -> (found: Vec<
        LayoutDetection,
    >)
        ensures
            found@ == usable(self.page_number, detections@, self.page_bbox, role),
            forall|k: int|
                0 <= k < found@.len() ==> is_probability(
                    (#[trigger] found@[k]).confidence as int,
                ),
    {
        let mut found: Vec<LayoutDetection> = Vec::new();
        let mut i: usize = 0;
        while i < detections.len()
            invariant
                i <= detections@.len(),
                found@ == usable_upto(
                    self.page_number,
                    detections@,
                    self.page_bbox,
                    role,
                    i as int,
                ),
                forall|k: int|
                    0 <= k < found@.len() ==> is_probability(
                        (#[trigger] found@[k]).confidence as int,
                    ),
            decreases detections@.len() - i,
        {
            let d: &LayoutDetection = &detections[i];
            if find_role(&d.label) == role && check_seed(self.page_number, d, &self.page_bbox).is_ok() {
                found.push(d.copy());
            }
            i = i + 1;
        }
        let ghost all = found@;
        let found: Vec<LayoutDetection> = sort(found, &SourceOrder);
        proof {
            sorting_orders_and_keeps(all, SourceOrder);
            lemma_confident(all, found@);
        }
        found
    }

    /// What is said of unusable detections.
    fn complain(&self, detections: &Vec<LayoutDetection>) -> (said: Vec<String>)
        ensures
            texts(said@) == text_set(
                complaints_upto(
                    self.page_number,
                    detections@,
                    self.page_bbox,
                    detections@.len() as int,
                ),
            ),
    {
        let mut said: Vec<String> = Vec::new();
        let mut i: usize = 0;
        assert(texts(said@) =~= Seq::empty());
        while i < detections.len()
            invariant
                i <= detections@.len(),
                texts(said@) == complaints_upto(
                    self.page_number,
                    detections@,
                    self.page_bbox,
                    i as int,
                ),
            decreases detections@.len() - i,
        {
            let d: &LayoutDetection = &detections[i];
            if let Err(error) = check_seed(self.page_number, d, &self.page_bbox) {
                let mut text: String = String::new();
                match d.label {
                    LayoutLabel::InlineFormula => {
                        push_text(&mut text, "ignored inline formula detection ");
                    },
                    _ => {
                        push_text(&mut text, "ignored layout detection ");
                    },
                }
                push_decimal(&mut text, d.source_detection_index as u64);
                push_text(&mut text, ": ");
                push_text(&mut text, error.message().as_str());
                assert(text@ =~= complaint(*d, error));
                push_to(&mut said, text);
            }
            i = i + 1;
        }
        sort_texts(said)
    }

    /// The region that owns a fragment, and why.
    fn select(
        &self,
        seeds: &Vec<BlockSeed>,
        fragment: &LineFragment,
        fact: usize,
        measures: &Vec<OutlineMeasures>,
        Ghost(a): Ghost<Assignment>,
    ) -> (chosen: Option<(usize, AssignEvidence)>)
        requires
            0 <= fact < a.fragments.len(),
            a.page == self.page_bbox,
            a.config == self.config,
            a.measures == measures@,
            seeds@.len() == a.seeds.len(),
            forall|k: int|
                0 <= k < seeds@.len() ==> (#[trigger] seeds@[k]).detection == a.seeds[k]
                    && is_probability(a.seeds[k].confidence as int),
            fragment@ == a.fragments[fact as int],
        ensures
            match chosen {
                None => a.owner(fact as int) is None,
                Some((seed, evidence)) => a.owner(fact as int) == Some(seed as int) && seed
                    < seeds@.len() && evidence == a.evidence(fact as int),
            },
    {
        let mut owner: Option<(usize, AssignmentScore)> = None;
        let mut count: usize = 0;
        let mut k: usize = 0;
        while k < seeds.len()
            invariant
                0 <= fact < a.fragments.len(),
                a.page == self.page_bbox,
                a.config == self.config,
                a.measures == measures@,
                seeds@.len() == a.seeds.len(),
                forall|m: int|
                    0 <= m < seeds@.len() ==> (#[trigger] seeds@[m]).detection == a.seeds[m]
                        && is_probability(a.seeds[m].confidence as int),
                fragment@ == a.fragments[fact as int],
                k <= seeds@.len(),
                count <= k,
                count == a.choices_upto(fact as int, k as int),
                match (owner, a.best_upto(fact as int, k as int)) {
                    (None, None) => count == 0,
                    (Some((seed, scored)), Some((expected, best))) => seed == expected && seed < k
                        && scored == best && count >= 1,
                    _ => false,
                },
            decreases seeds@.len() - k,
        {
            assert(seeds@[k as int].detection == a.seeds[k as int]);
            if let Some(scored) = seeds[k].score(
                fragment,
                fact,
                measures,
                &self.page_bbox,
                &self.config,
            ) {
                count = count + 1;
                let replace: bool = match &owner {
                    None => true,
                    Some((other, best)) => candidate_wins(
                        &scored,
                        &seeds[k].detection,
                        best,
                        &seeds[*other].detection,
                    ),
                };
                if replace {
                    owner = Some((k, scored));
                }
            }
            k = k + 1;
        }
        match owner {
            None => None,
            Some((seed, selected)) => Some(
                (seed, AssignEvidence { selected, alternative_count: count - 1 }),
            ),
        }
    }

    /// Assigns every text fact to exactly one region or to the rest. A fact without an extent is
    /// refused.
    ///
    /// Ownership is decided for each text fact by itself: a visual line can
    /// straddle an inaccurate region. Only scripts go with the text they
    /// belong to.
    pub fn assign(
        &self,
        items: &Vec<TextItem>,
        detections: &Vec<LayoutDetection>,
        measures: &Vec<OutlineMeasures>,
    ) -> (made: Result<AssignmentResult, LineError>)
        ensures
            match made {
                Ok(result) => runs_fault(items@, items@.len() as int) is None && is_assigned(
                    result,
                    *self,
                    items@,
                    detections@,
                    measures@,
                ),
                Err(e) => runs_fault(items@, items@.len() as int) == Some(e),
            },
    {
        let ghost a = self.assignment(items@, detections@, measures@);
        let regions: Vec<LayoutDetection> = self.list_usable(detections, Role::Body);
        let inline_formulas: Vec<LayoutDetection> = self.list_usable(detections, Role::Formula);
        let reference_seeds: Vec<LayoutDetection> = self.list_usable(detections, Role::Reference);
        let diagnostics: Vec<String> = self.complain(detections);
        let bare: Vec<BlockSeed> = self.seeds_of(regions);
        let fragments: Vec<LineFragment> = match self.fragments(items) {
            Err(e) => {
                return Err(e);
            },
            Ok(fragments) => fragments,
        };
        let mut owners: Vec<Option<(usize, AssignEvidence)>> = Vec::new();
        let mut residual: Vec<LineFragment> = Vec::new();
        let mut i: usize = 0;
        assert(models(residual@) =~= Seq::empty());
        while i < fragments.len()
            invariant
                a == self.assignment(items@, detections@, measures@),
                a.fragments == models(fragments@),
                bare@.len() == a.seeds.len(),
                forall|m: int|
                    0 <= m < bare@.len() ==> (#[trigger] bare@[m]).detection == a.seeds[m]
                        && is_probability(a.seeds[m].confidence as int),
                i <= fragments@.len(),
                models(residual@) == a.fragments_upto(None, i as int),
                owners@.len() == i,
                forall|k: int| 0 <= k < i ==> owned_as(a, k, #[trigger] owners@[k]),
            decreases fragments@.len() - i,
        {
            let fragment: &LineFragment = &fragments[i];
            assert(a.fragments[i as int] == fragment@);
            let chosen: Option<(usize, AssignEvidence)> = self.select(
                &bare,
                fragment,
                i,
                measures,
                Ghost(a),
            );
            if chosen.is_none() {
                let ghost before = residual@;
                residual.push(fragment.copy());
                assert(models(residual@) =~= models(before).push(fragment@));
            }
            owners.push(chosen);
            i = i + 1;
        }
        let model_seeds: Vec<BlockSeed> = self.fill(bare, &fragments, &owners, Ghost(a));
        Ok(AssignmentResult { model_seeds, reference_seeds, residual, inline_formulas, diagnostics })
    }

    /// Seeds that own nothing yet.
    fn seeds_of(&self, regions: Vec<LayoutDetection>) -> (seeds: Vec<BlockSeed>)
        ensures
            seeds@.len() == regions@.len(),
            forall|k: int|
                0 <= k < seeds@.len() ==> (#[trigger] seeds@[k]).detection == regions@[k]
                    && seeds@[k].page_number == self.page_number,
    {
        let mut seeds: Vec<BlockSeed> = Vec::new();
        let mut i: usize = 0;
        while i < regions.len()
            invariant
                i <= regions@.len(),
                seeds@.len() == i,
                forall|k: int|
                    0 <= k < i ==> (#[trigger] seeds@[k]).detection == regions@[k]
                        && seeds@[k].page_number == self.page_number,
            decreases regions@.len() - i,
        {
            seeds.push(
                BlockSeed {
                    page_number: self.page_number,
                    detection: regions[i].copy(),
                    fragments: Vec::new(),
                    assignment_evidence: Vec::new(),
                },
            );
            i = i + 1;
        }
        seeds
    }

    /// Seeds with what they own.
    fn fill(
        &self,
        bare: Vec<BlockSeed>,
        parts: &Vec<LineFragment>,
        owners: &Vec<Option<(usize, AssignEvidence)>>,
        Ghost(a): Ghost<Assignment>,
    ) -> (seeds: Vec<BlockSeed>)
        requires
            a.fragments == models(parts@),
            a.page == self.page_bbox,
            bare@.len() == a.seeds.len(),
            forall|k: int| 0 <= k < bare@.len() ==> (#[trigger] bare@[k]).detection == a.seeds[k],
            owners@.len() == parts@.len(),
            forall|k: int| 0 <= k < parts@.len() ==> owned_as(a, k, #[trigger] owners@[k]),
        ensures
            seeds@.len() == a.seeds.len(),
            forall|k: int|
                #![trigger seeds@[k]]
                0 <= k < a.seeds.len() ==> {
                    &&& seeds@[k].page_number == self.page_number
                    &&& seeds@[k].detection == a.seeds[k]
                    &&& models(seeds@[k].fragments@) == a.seed_fragments(k)
                    &&& seeds@[k].assignment_evidence@ == a.evidence_upto(k, parts@.len() as int)
                },
    {
        let mut seeds: Vec<BlockSeed> = Vec::new();
        let mut k: usize = 0;
        while k < bare.len()
            invariant
                a.fragments == models(parts@),
                a.page == self.page_bbox,
                bare@.len() == a.seeds.len(),
                forall|m: int|
                    0 <= m < bare@.len() ==> (#[trigger] bare@[m]).detection == a.seeds[m],
                owners@.len() == parts@.len(),
                forall|m: int| 0 <= m < parts@.len() ==> owned_as(a, m, #[trigger] owners@[m]),
                k <= bare@.len(),
                seeds@.len() == k,
                forall|m: int|
                    #![trigger seeds@[m]]
                    0 <= m < k ==> {
                        &&& seeds@[m].page_number == self.page_number
                        &&& seeds@[m].detection == a.seeds[m]
                        &&& models(seeds@[m].fragments@) == a.seed_fragments(m)
                        &&& seeds@[m].assignment_evidence@ == a.evidence_upto(
                            m,
                            parts@.len() as int,
                        )
                    },
            decreases bare@.len() - k,
        {
            let (fragments, assignment_evidence): (Vec<LineFragment>, Vec<AssignEvidence>) =
                self.gather(k, parts, owners, Ghost(a));
            assert(bare@[k as int].detection == a.seeds[k as int]);
            seeds.push(
                BlockSeed {
                    page_number: self.page_number,
                    detection: bare[k].detection.copy(),
                    fragments: sort_fragments(fragments, FragmentOrder::Corner),
                    assignment_evidence,
                },
            );
            k = k + 1;
        }
        seeds
    }

    /// What one seed owns, in the order of the fragments.
    fn gather(
        &self,
        seed: usize,
        parts: &Vec<LineFragment>,
        owners: &Vec<Option<(usize, AssignEvidence)>>,
        Ghost(a): Ghost<Assignment>,
    ) -> (owned: (Vec<LineFragment>, Vec<AssignEvidence>))
        requires
            a.fragments == models(parts@),
            a.page == self.page_bbox,
            owners@.len() == parts@.len(),
            forall|k: int| 0 <= k < parts@.len() ==> owned_as(a, k, #[trigger] owners@[k]),
        ensures
            models(owned.0@) == a.fragments_upto(Some(seed as int), parts@.len() as int),
            owned.1@ == a.evidence_upto(seed as int, parts@.len() as int),
    {
        let mut fragments: Vec<LineFragment> = Vec::new();
        let mut evidence: Vec<AssignEvidence> = Vec::new();
        let mut i: usize = 0;
        assert(models(fragments@) =~= Seq::empty());
        while i < parts.len()
            invariant
                a.fragments == models(parts@),
                a.page == self.page_bbox,
                owners@.len() == parts@.len(),
                forall|k: int| 0 <= k < parts@.len() ==> owned_as(a, k, #[trigger] owners@[k]),
                i <= parts@.len(),
                models(fragments@) == a.fragments_upto(Some(seed as int), i as int),
                evidence@ == a.evidence_upto(seed as int, i as int),
            decreases parts@.len() - i,
        {
            assert(owned_as(a, i as int, owners@[i as int]));
            if let Some((owner, why)) = owners[i] {
                if owner == seed {
                    let fragment: LineFragment = parts[i].copy();
                    let ghost before = fragments@;
                    assert(a.fragments[i as int] == fragment@);
                    fragments.push(fragment);
                    assert(models(fragments@) =~= models(before).push(fragment@));
                    evidence.push(why);
                }
            }
            i = i + 1;
        }
        (fragments, evidence)
    }
}

/// Whether a choice is the owner of a fragment.
pub open spec fn owned_as(a: Assignment, i: int, chosen: Option<(usize, AssignEvidence)>) -> bool {
    match chosen {
        None => a.owner(i) is None,
        Some((seed, evidence)) => a.owner(i) == Some(seed as int) && evidence == a.evidence(i),
    }
}

/// Sorted detections keep their confidences.
proof fn lemma_confident(a: Seq<LayoutDetection>, b: Seq<LayoutDetection>)
    requires
        a.to_multiset() == b.to_multiset(),
        forall|k: int| 0 <= k < a.len() ==> is_probability((#[trigger] a[k]).confidence as int),
    ensures
        forall|k: int| 0 <= k < b.len() ==> is_probability((#[trigger] b[k]).confidence as int),
{
    broadcast use vstd::seq_lib::group_to_multiset_ensures;

    assert forall|k: int| 0 <= k < b.len() implies is_probability(
        (#[trigger] b[k]).confidence as int,
    ) by {
        assert(b.contains(b[k]));
        assert(a.to_multiset().count(b[k]) > 0);
        assert(a.contains(b[k]));
        let m = a.index_of(b[k]);
        assert(a[m] == b[k]);
    }
}

/// The text facts that the first `n` regions own, each as often as it occurs.
pub open spec fn owned_by_upto(a: Assignment, n: int) -> Multiset<TextItem>
    decreases n,
{
    if n <= 0 {
        Multiset::empty()
    } else {
        owned_by_upto(a, n - 1).add(owned(a.seed_fragments(n - 1)))
    }
}

/// Every text fact is owned by exactly one region or belongs to the rest.
pub proof fn assignment_is_a_partition(
    engine: AssignmentEngine,
    items: Seq<TextItem>,
    detections: Seq<LayoutDetection>,
    measures: Seq<OutlineMeasures>,
)
    ensures
        ({
            let a = engine.assignment(items, detections, measures);
            owned_by_upto(a, a.seeds.len() as int).add(owned(a.residual())) == items.to_multiset()
        }),
{
    let a = engine.assignment(items, detections, measures);
    let width = narrowed(engine.page_bbox.wide());
    let n = items.len() as int;
    lemma_partition(a, a.fragments.len() as int);
    lemma_sorted_ownership(a, a.seeds.len() as int);
    attaching_keeps_runs(singles(items, n, width), width);
    lemma_singles_keep(items, n, width);
    assert(items.take(n) =~= items);
}

/// The text facts, of the first `m` fragments, that the first `n` regions own.
spec fn raw_owned(a: Assignment, n: int, m: int) -> Multiset<TextItem>
    decreases n,
{
    if n <= 0 {
        Multiset::empty()
    } else {
        raw_owned(a, n - 1, m).add(owned(a.fragments_upto(Some(n - 1), m)))
    }
}

proof fn lemma_sorted_ownership(a: Assignment, n: int)
    ensures
        owned_by_upto(a, n) == raw_owned(a, n, a.fragments.len() as int),
    decreases n,
{
    if n > 0 {
        lemma_sorted_ownership(a, n - 1);
        let raw = a.fragments_upto(Some(n - 1), a.fragments.len() as int);
        sorting_orders_and_keeps(raw, FragmentOrder::Corner);
        lemma_owned_by_multiset(raw, a.seed_fragments(n - 1));
    }
}

proof fn lemma_one_more(a: Assignment, n: int, m: int)
    requires
        0 < m <= a.fragments.len(),
    ensures
        raw_owned(a, n, m) == (if a.owner(m - 1) is Some && 0 <= a.owner(m - 1)->0 < n {
            raw_owned(a, n, m - 1).add(a.fragments[m - 1].items.to_multiset())
        } else {
            raw_owned(a, n, m - 1)
        }),
    decreases n,
{
    if n > 0 {
        lemma_one_more(a, n - 1, m);
        let before = a.fragments_upto(Some(n - 1), m - 1);
        if a.owner(m - 1) == Some(n - 1) {
            lemma_owned_push(before, a.fragments[m - 1]);
            assert(raw_owned(a, n, m) =~= raw_owned(a, n, m - 1).add(
                a.fragments[m - 1].items.to_multiset(),
            ));
        } else {
            if a.owner(m - 1) is Some && 0 <= a.owner(m - 1)->0 < n - 1 {
                assert(raw_owned(a, n, m) =~= raw_owned(a, n, m - 1).add(
                    a.fragments[m - 1].items.to_multiset(),
                ));
            }
        }
    }
}

proof fn lemma_owner_range(a: Assignment, i: int, n: int)
    ensures
        a.best_upto(i, n) matches Some((seed, _)) ==> 0 <= seed < n,
    decreases n,
{
    if n > 0 {
        lemma_owner_range(a, i, n - 1);
    }
}

proof fn lemma_partition(a: Assignment, m: int)
    requires
        0 <= m <= a.fragments.len(),
    ensures
        raw_owned(a, a.seeds.len() as int, m).add(owned(a.fragments_upto(None, m)))
            == owned_upto(a.fragments, m),
    decreases m,
{
    let n = a.seeds.len() as int;
    if m > 0 {
        lemma_partition(a, m - 1);
        lemma_one_more(a, n, m);
        lemma_owner_range(a, m - 1, n);
        if a.owner(m - 1) is None {
            lemma_owned_push(a.fragments_upto(None, m - 1), a.fragments[m - 1]);
        }
        assert(raw_owned(a, n, m).add(owned(a.fragments_upto(None, m))) =~= owned_upto(
            a.fragments,
            m,
        ));
    } else {
        lemma_nothing_owned(a, n);
        assert(raw_owned(a, n, 0).add(owned(a.fragments_upto(None, 0))) =~= Multiset::empty());
    }
}

proof fn lemma_nothing_owned(a: Assignment, n: int)
    ensures
        raw_owned(a, n, 0) == Multiset::<TextItem>::empty(),
    decreases n,
{
    if n > 0 {
        lemma_nothing_owned(a, n - 1);
        assert(raw_owned(a, n, 0) =~= Multiset::empty());
    }
}

/// A fragment goes to the region that wins over all others.
pub proof fn owners_are_best(a: Assignment, i: int, other: int)
    requires
        0 <= other < a.seeds.len(),
        a.score(i, other) is Some,
        forall|p: int, q: int|
            0 <= p < q < a.seeds.len() ==> (#[trigger] a.seeds[p]).source_detection_index
                != (#[trigger] a.seeds[q]).source_detection_index,
    ensures
        a.owner(i) is Some,
        ({
            let seed = a.owner(i)->0;
            &&& 0 <= seed < a.seeds.len()
            &&& a.score(i, seed) is Some
            &&& wins(a.score(i, seed)->0, a.seeds[seed], a.score(i, other)->0, a.seeds[other])
        }),
{
    lemma_best(a, i, a.seeds.len() as int, other);
}

proof fn lemma_best(a: Assignment, i: int, n: int, other: int)
    requires
        0 <= other < n <= a.seeds.len(),
        a.score(i, other) is Some,
        forall|p: int, q: int|
            0 <= p < q < a.seeds.len() ==> (#[trigger] a.seeds[p]).source_detection_index
                != (#[trigger] a.seeds[q]).source_detection_index,
    ensures
        a.best_upto(i, n) matches Some((seed, best)) && 0 <= seed < n && a.score(i, seed) == Some(
            best,
        ) && wins(best, a.seeds[seed], a.score(i, other)->0, a.seeds[other]),
    decreases n,
{
    lemma_best_is_scored(a, i, n - 1);
    if other < n - 1 {
        lemma_best(a, i, n - 1, other);
    }
}

proof fn lemma_best_is_scored(a: Assignment, i: int, n: int)
    ensures
        a.best_upto(i, n) matches Some((seed, best)) ==> 0 <= seed < n && a.score(i, seed) == Some(
            best,
        ),
    decreases n,
{
    if n > 0 {
        lemma_best_is_scored(a, i, n - 1);
    }
}

} // verus!
