//! From the characters of a page to its native text facts.
//!
//! Characters are gathered into runs in the order in which the page states
//! them. A run ends where the page breaks the line, jumps, turns or changes
//! the font; no character is invented and none is lost.

use std::sync::Arc;
use vstd::math::{abs, max};
use vstd::prelude::*;

use super::glyph::{composed_of, GlyphNormalizer};
use crate::chars::{
    chars_of, is_control, is_control_code, is_same_text, is_space, is_whitespace, push_text,
    same_text,
};
use crate::error::ExtractError;
use crate::geometry::{distance, floor_div, max_i64, narrow, narrowed, Baseline, Bbox, Point};
use crate::line::axes::{is_parallel, oblique, parallel, Frame, TextAxes};
use crate::types::{
    copy_actions, has_action, native_id, Color, RepairAction, Rotation, TextItemId, TextMatrix, UnicodeMappingStatus,
};

verus! {

/// The widest blank inside a run: fifteen points.
pub const MAX_INLINE_GAP: i64 = 150_000;

/// Twice the smallest jump across the line that ends a run: four points.
pub const MIN_JUMP_X2: i64 = 40_000;

/// Typography and provenance of a character or of a run.
#[derive(Debug)]
pub struct Typography {
    pub rotation: Rotation,
    pub font_name: Option<String>,
    pub font_size: Option<i32>,
    pub font_height: Option<i32>,
    pub font_ascent: Option<i32>,
    pub font_descent: Option<i32>,
    pub font_weight: Option<u16>,
    pub font_flags: Option<u32>,
    pub text_matrix: Option<TextMatrix>,
    pub fill_color: Option<Color>,
    pub stroke_color: Option<Color>,
    pub mcid: Option<i32>,
    pub text_object_index: Option<u32>,
    pub link: Option<String>,
    pub strike: bool,
}

/// One character fact in canonical viewport coordinates.
#[derive(Debug)]
pub struct TextCharFact {
    pub character: char,
    /// What the glyph shows behind its first character.
    pub tail: String,
    /// Repairs that the text of the glyph went through.
    pub repair_actions: Arc<Vec<RepairAction>>,
    pub bbox: Bbox,
    pub loose_bbox: Bbox,
    pub origin: Option<Point>,
    pub char_code: u32,
    pub generated: bool,
    pub unicode_map_error: bool,
    pub explicit_break: bool,
    pub typography: Typography,
}

/// A run as a text fact, with everything known of its characters.
#[derive(Debug)]
pub struct TextItemDraft {
    pub id: TextItemId,
    pub extraction_order: u32,
    pub raw_text: String,
    pub char_codes: Vec<u32>,
    pub repair_actions: Vec<RepairAction>,
    pub bbox: Bbox,
    pub baseline: Option<Baseline>,
    pub unicode_mapping: UnicodeMappingStatus,
    pub generated_space: bool,
    pub typography: Typography,
}

/// What a draft says, with its texts and lists as sequences.
#[verifier::ext_equal]
pub struct DraftModel {
    pub id: Seq<char>,
    pub extraction_order: u32,
    pub raw_text: Seq<char>,
    pub char_codes: Seq<u32>,
    pub repair_actions: Seq<RepairAction>,
    pub bbox: Bbox,
    pub baseline: Option<Baseline>,
    pub unicode_mapping: UnicodeMappingStatus,
    pub generated_space: bool,
    pub typography: Typography,
}

impl View for TextItemDraft {
    type V = DraftModel;

    open spec fn view(&self) -> DraftModel {
        DraftModel {
            id: self.id@,
            extraction_order: self.extraction_order,
            raw_text: self.raw_text@,
            char_codes: self.char_codes@,
            repair_actions: self.repair_actions@,
            bbox: self.bbox,
            baseline: self.baseline,
            unicode_mapping: self.unicode_mapping,
            generated_space: self.generated_space,
            typography: self.typography,
        }
    }
}

/// Geometry and counts of a run in progress.
#[derive(Debug)]
pub struct RunFacts {
    pub bbox: Bbox,
    pub last_bbox: Bbox,
    pub baseline: Option<Baseline>,
    /// Sum of the widths of the characters.
    pub width_sum: i128,
    pub character_count: u64,
    pub unicode_error_count: u64,
    pub generated_space: bool,
    pub typography: Typography,
}

/// A run in progress.
#[derive(Debug)]
pub struct CurrentSegment {
    pub raw_text: String,
    pub char_codes: Vec<u32>,
    pub repair_actions: Vec<RepairAction>,
    pub facts: RunFacts,
}

/// What a run in progress says.
#[verifier::ext_equal]
pub struct SegmentModel {
    pub raw_text: Seq<char>,
    pub char_codes: Seq<u32>,
    pub repair_actions: Seq<RepairAction>,
    pub facts: RunFacts,
}

impl View for CurrentSegment {
    type V = SegmentModel;

    open spec fn view(&self) -> SegmentModel {
        SegmentModel {
            raw_text: self.raw_text@,
            char_codes: self.char_codes@,
            repair_actions: self.repair_actions@,
            facts: self.facts,
        }
    }
}

/// The box in the frame of a rotation; the box itself for text along an axis.
pub open spec fn local_frame(axes: TextAxes, b: Bbox) -> (int, int, int, int) {
    if oblique(axes.rotation.angle as int) {
        axes.frame_of(b)
    } else {
        (b.left as int, b.top as int, b.right as int, b.bottom as int)
    }
}

/// Whether a frame has a positive extent both ways.
pub open spec fn proper(f: (int, int, int, int)) -> bool {
    f.0 < f.2 && f.1 < f.3
}

/// The measured origin of an oblique character, extended to its projected visible extent.
pub open spec fn oblique_baseline(fact: TextCharFact) -> Option<Baseline> {
    let axes = TextAxes { rotation: fact.typography.rotation };
    if !oblique(axes.rotation.angle as int) || fact.origin is None || !proper(
        axes.frame_of(fact.bbox),
    ) {
        None
    } else {
        let origin = fact.origin->0;
        Some(
            Baseline {
                start: origin,
                end: axes.point_at(
                    max(axes.frame_of(fact.bbox).2, axes.inline_of(origin)),
                    axes.cross_of(origin),
                ),
            },
        )
    }
}

/// Number of characters of a fact that the font does not map.
pub open spec fn errors_of(fact: TextCharFact) -> int {
    if fact.unicode_map_error {
        1
    } else {
        0
    }
}

/// Whether a glyph shows one character.
pub open spec fn is_single(fact: TextCharFact) -> bool {
    fact.tail@.len() == 0
}

/// A run that starts with a visible glyph, its first character given.
pub open spec fn started(fact: TextCharFact, character: char) -> SegmentModel {
    SegmentModel {
        raw_text: seq![character] + fact.tail@,
        char_codes: seq![fact.char_code],
        repair_actions: fact.repair_actions@,
        facts: RunFacts {
            bbox: fact.loose_bbox,
            last_bbox: fact.bbox,
            baseline: oblique_baseline(fact),
            width_sum: fact.bbox.wide() as i128,
            character_count: 1,
            unicode_error_count: errors_of(fact) as u64,
            generated_space: false,
            typography: fact.typography,
        },
    }
}

/// Twice how far a character stands across the line from the run before it.
pub open spec fn shift_x2(run: RunFacts, fact: TextCharFact) -> nat {
    let axes = TextAxes { rotation: run.typography.rotation };
    let previous = local_frame(axes, run.last_bbox);
    let incoming = local_frame(axes, fact.bbox);
    if !oblique(axes.rotation.angle as int) {
        2 * abs(incoming.1 - previous.1)
    } else if run.baseline is Some && fact.origin is Some {
        2 * abs(axes.cross_of(fact.origin->0) - axes.cross_of(run.baseline->0.start))
    } else {
        abs((incoming.1 + incoming.3) - (previous.1 + previous.3))
    }
}

/// Twice how far a character may stand across the line.
///
/// Measured origins share a baseline up to rounding, so an inflated rotated
/// box does not join a neighbouring parallel line.
pub open spec fn allowed_shift_x2(run: RunFacts, fact: TextCharFact) -> int {
    let axes = TextAxes { rotation: run.typography.rotation };
    let previous = local_frame(axes, run.last_bbox);
    let incoming = local_frame(axes, fact.bbox);
    if oblique(axes.rotation.angle as int) && run.baseline is Some && fact.origin is Some {
        MIN_JUMP_X2 as int
    } else {
        max(max(previous.3 - previous.1, incoming.3 - incoming.1), MIN_JUMP_X2 as int)
    }
}

/// Whether a character stands before the run by more than half an average character.
pub open spec fn backtracks(run: RunFacts, fact: TextCharFact) -> bool {
    let axes = TextAxes { rotation: run.typography.rotation };
    let previous = local_frame(axes, run.last_bbox);
    let incoming = local_frame(axes, fact.bbox);
    if oblique(axes.rotation.angle as int) {
        2 * (incoming.0 - previous.0) + (previous.2 - previous.0) < 0
    } else {
        (incoming.0 - previous.0) * (2 * run.character_count) + run.width_sum < 0
    }
}

/// Whether an incoming visible character must start a new run.
pub open spec fn must_split_run(run: RunFacts, fact: TextCharFact) -> bool {
    let axes = TextAxes { rotation: run.typography.rotation };
    let previous = local_frame(axes, run.last_bbox);
    let incoming = local_frame(axes, fact.bbox);
    ||| oblique(axes.rotation.angle as int) && !(proper(previous) && proper(incoming))
    ||| shift_x2(run, fact) > allowed_shift_x2(run, fact)
    ||| incoming.0 - previous.2 > MAX_INLINE_GAP
    ||| backtracks(run, fact)
    ||| !parallel(run.typography.rotation.angle as int, fact.typography.rotation.angle as int)
    ||| !same_text(run.typography.font_name, fact.typography.font_name)
    ||| run.typography.font_flags != fact.typography.font_flags
}

/// The mean of a metric of `count` characters and of one more, to the nearest unit.
pub open spec fn merged_metric(current: Option<i32>, incoming: Option<i32>, count: int) -> Option<
    i32,
> {
    match (current, incoming) {
        (Some(a), Some(b)) => Some(
            narrowed((2 * (a * count + b) + (count + 1)) / (2 * (count + 1))) as i32,
        ),
        (Some(a), None) => Some(a),
        (None, b) => b,
    }
}

/// Typography of a run of `count` characters that takes up one more.
pub open spec fn merged_typography(run: Typography, fact: Typography, count: int) -> Typography {
    Typography {
        font_size: merged_metric(run.font_size, fact.font_size, count),
        font_height: merged_metric(run.font_height, fact.font_height, count),
        font_ascent: merged_metric(run.font_ascent, fact.font_ascent, count),
        font_descent: merged_metric(run.font_descent, fact.font_descent, count),
        text_object_index: if run.text_object_index == fact.text_object_index {
            run.text_object_index
        } else {
            None
        },
        link: if run.link is None {
            fact.link
        } else {
            run.link
        },
        strike: run.strike || fact.strike,
        ..run
    }
}

/// The character that a glyph makes with the one before it, on which it lies.
pub open spec fn overlay_of(segment: SegmentModel, fact: TextCharFact) -> Option<char> {
    if segment.raw_text.len() > 0 && is_single(fact) {
        composed_of(
            segment.raw_text.last(),
            segment.facts.last_bbox,
            fact.character,
            fact.bbox,
        )
    } else {
        None
    }
}

/// A run that takes up a visible glyph.
pub open spec fn extended(segment: SegmentModel, fact: TextCharFact) -> SegmentModel {
    let run = segment.facts;
    SegmentModel {
        raw_text: match overlay_of(segment, fact) {
            Some(both) => segment.raw_text.drop_last().push(both),
            None => segment.raw_text + (seq![fact.character] + fact.tail@),
        },
        char_codes: segment.char_codes.push(fact.char_code),
        repair_actions: segment.repair_actions + fact.repair_actions@,
        facts: RunFacts {
            bbox: run.bbox.join(fact.loose_bbox),
            last_bbox: fact.bbox,
            baseline: match (run.baseline, oblique_baseline(fact)) {
                (Some(baseline), Some(next)) => Some(
                    Baseline { start: baseline.start, end: next.end },
                ),
                _ => None,
            },
            width_sum: (run.width_sum + fact.bbox.wide()) as i128,
            character_count: (run.character_count + 1) as u64,
            unicode_error_count: (run.unicode_error_count + errors_of(fact)) as u64,
            generated_space: run.generated_space,
            typography: merged_typography(
                run.typography,
                fact.typography,
                run.character_count as int,
            ),
        },
    }
}

/// A run behind which a source blank stands.
pub open spec fn spaced(segment: SegmentModel, fact: TextCharFact) -> SegmentModel {
    SegmentModel {
        raw_text: if segment.raw_text.len() > 0 && segment.raw_text.last() == ' ' {
            segment.raw_text
        } else {
            segment.raw_text.push(' ')
        },
        char_codes: segment.char_codes.push(fact.char_code),
        repair_actions: segment.repair_actions + fact.repair_actions@,
        facts: RunFacts {
            generated_space: segment.facts.generated_space || fact.generated,
            ..segment.facts
        },
    }
}

/// A run to which a repair is noted.
pub open spec fn repaired(segment: SegmentModel, action: RepairAction) -> SegmentModel {
    SegmentModel { repair_actions: segment.repair_actions.push(action), ..segment }
}

/// How much of the text of a run the font maps.
pub open spec fn mapping_of(run: RunFacts) -> UnicodeMappingStatus {
    if run.unicode_error_count == 0 {
        UnicodeMappingStatus::Complete
    } else if run.unicode_error_count >= run.character_count {
        UnicodeMappingStatus::Missing
    } else {
        UnicodeMappingStatus::Partial
    }
}

/// The draft of a finished run.
pub open spec fn draft_of(segment: SegmentModel, page: nat, order: u32) -> DraftModel {
    DraftModel {
        id: native_id(page, order as nat),
        extraction_order: order,
        raw_text: segment.raw_text,
        char_codes: segment.char_codes,
        repair_actions: segment.repair_actions,
        bbox: segment.facts.bbox,
        baseline: segment.facts.baseline,
        unicode_mapping: mapping_of(segment.facts),
        generated_space: segment.facts.generated_space,
        typography: segment.facts.typography,
    }
}

/// What a builder of runs holds.
#[verifier::ext_equal]
pub struct BuilderModel {
    pub page_number: u32,
    pub next: u32,
    pub current: Option<SegmentModel>,
    pub completed: Seq<DraftModel>,
}

/// A builder whose run is finished; none where the identities ran out.
pub open spec fn flushed(b: BuilderModel) -> Option<BuilderModel> {
    match b.current {
        None => Some(b),
        Some(segment) => if b.next == u32::MAX {
            None
        } else {
            Some(
                BuilderModel {
                    next: (b.next + 1) as u32,
                    current: None,
                    completed: b.completed.push(
                        draft_of(segment, b.page_number as nat, b.next),
                    ),
                    ..b
                },
            )
        },
    }
}

/// A builder whose run, if any, is changed.
pub open spec fn changed(b: BuilderModel, f: spec_fn(SegmentModel) -> SegmentModel) -> BuilderModel {
    match b.current {
        None => b,
        Some(segment) => BuilderModel { current: Some(f(segment)), ..b },
    }
}

/// Whether a fact ends the line.
pub open spec fn is_break(fact: TextCharFact) -> bool {
    fact.explicit_break || (is_single(fact) && (fact.character == '\n' || fact.character == '\r'))
}

/// Whether a fact is a hyphen that the font encodes as a control code, resolved or not.
pub open spec fn is_hyphen(fact: TextCharFact) -> bool {
    is_single(fact) && (fact.character == '\u{2}' || fact.repair_actions@.contains(
        RepairAction::EncodedHyphen,
    ))
}

/// The run of an encoded hyphen.
pub open spec fn hyphen_run(fact: TextCharFact) -> SegmentModel {
    if fact.character == '\u{2}' {
        repaired(started(fact, '-'), RepairAction::EncodedHyphen)
    } else {
        started(fact, fact.character)
    }
}

/// A builder that consumed a visible character.
pub open spec fn shown(b: BuilderModel, fact: TextCharFact) -> Option<BuilderModel> {
    match b.current {
        Some(segment) => if must_split_run(segment.facts, fact) {
            match flushed(b) {
                None => None,
                Some(ended) => Some(
                    BuilderModel { current: Some(started(fact, fact.character)), ..ended },
                ),
            }
        } else {
            Some(BuilderModel { current: Some(extended(segment, fact)), ..b })
        },
        None => Some(BuilderModel { current: Some(started(fact, fact.character)), ..b }),
    }
}

/// A builder that consumed an encoded hyphen: it stands in a run of its own.
pub open spec fn hyphenated(b: BuilderModel, fact: TextCharFact) -> Option<BuilderModel> {
    match flushed(b) {
        None => None,
        Some(ended) => flushed(
            BuilderModel { current: Some(hyphen_run(fact)), ..ended },
        ),
    }
}

/// A builder that consumed a character; none where the identities ran out.
///
/// Some embedded subset fonts state a blank or a hyphen as the control codes 1
/// and 2; other control codes are dropped. A glyph of several characters is visible.
pub open spec fn pushed(b: BuilderModel, fact: TextCharFact) -> Option<BuilderModel> {
    if is_break(fact) {
        flushed(b)
    } else if is_single(fact) && fact.character == '\u{1}' {
        Some(changed(b, |segment: SegmentModel| spaced(segment, fact)))
    } else if is_hyphen(fact) {
        hyphenated(b, fact)
    } else if is_single(fact) && is_control_code(fact.character) {
        Some(changed(b, |segment: SegmentModel| repaired(segment, RepairAction::RemovedControl)))
    } else if is_single(fact) && is_space(fact.character) {
        Some(changed(b, |segment: SegmentModel| spaced(segment, fact)))
    } else {
        shown(b, fact)
    }
}

/// A builder after the first `n` facts; none where the identities ran out.
pub open spec fn built(page: u32, facts: Seq<TextCharFact>, n: int) -> Option<BuilderModel>
    decreases n,
{
    if n <= 0 {
        Some(BuilderModel { page_number: page, next: 0, current: None, completed: Seq::empty() })
    } else {
        match built(page, facts, n - 1) {
            None => None,
            Some(b) => pushed(b, facts[n - 1]),
        }
    }
}

/// The drafts of a sequence of facts; none where the identities ran out.
pub open spec fn drafts_of(page: u32, facts: Seq<TextCharFact>) -> Option<Seq<DraftModel>> {
    match built(page, facts, facts.len() as int) {
        None => None,
        Some(b) => match flushed(b) {
            None => None,
            Some(ended) => Some(ended.completed),
        },
    }
}

/// The text of a list of characters.
fn text_from(characters: &Vec<char>) -> (text: String)
    ensures
        text@ == characters@,
{
    let mut text: String = String::new();
    let mut i: usize = 0;
    assert(text@ =~= characters@.take(0));
    while i < characters.len()
        invariant
            i <= characters@.len(),
            text@ == characters@.take(i as int),
        decreases characters@.len() - i,
    {
        text.push(characters[i]);
        i = i + 1;
        assert(text@ =~= characters@.take(i as int));
    }
    assert(characters@.take(characters@.len() as int) =~= characters@);
    text
}

impl TextCharFact {
    /// Extends the measured oblique origin to the glyph's projected visible extent.
    fn oblique_baseline(&self) -> (baseline: Option<Baseline>)
        ensures
            baseline == oblique_baseline(*self),
    {
        let axes: TextAxes = TextAxes::from(self.typography.rotation);
        if !axes.is_oblique() {
            return None;
        }
        match (self.origin, axes.project_bbox(self.bbox)) {
            (Some(origin), Ok(bounds)) => {
                let local: (i64, i64) = axes.project(origin);
                Some(
                    Baseline {
                        start: origin,
                        end: axes.unproject(max_i64(bounds.right, local.0), local.1),
                    },
                )
            },
            _ => None,
        }
    }
}

/// The box in the frame of a rotation, where it has a positive extent.
fn frame_in(axes: &TextAxes, b: Bbox) -> (frame: Option<Frame>)
    ensures
        match frame {
            Some(f) => {
                &&& local_frame(*axes, b) == (
                    f.left as int,
                    f.top as int,
                    f.right as int,
                    f.bottom as int,
                )
                &&& -0x8_0000_0000 <= f.left <= 0x8_0000_0000
                &&& -0x8_0000_0000 <= f.top <= 0x8_0000_0000
                &&& -0x8_0000_0000 <= f.right <= 0x8_0000_0000
                &&& -0x8_0000_0000 <= f.bottom <= 0x8_0000_0000
                &&& oblique(axes.rotation.angle as int) ==> proper(local_frame(*axes, b))
            },
            None => oblique(axes.rotation.angle as int) && !proper(local_frame(*axes, b)),
        },
{
    if axes.is_oblique() {
        match axes.project_bbox(b) {
            Ok(frame) => Some(frame),
            Err(_) => None,
        }
    } else {
        Some(
            Frame {
                left: b.left as i64,
                top: b.top as i64,
                right: b.right as i64,
                bottom: b.bottom as i64,
            },
        )
    }
}

/// The mean of a metric of `count` characters and of one more, to the nearest unit.
fn merge_metric(current: Option<i32>, incoming: Option<i32>, count: u64) -> (metric: Option<i32>)
    ensures
        metric == merged_metric(current, incoming, count as int),
{
    match (current, incoming) {
        (Some(a), Some(b)) => {
            let n: i128 = count as i128;
            proof {
                let (x, k) = (a as int, n as int);
                assert(-0x8000_0000_0000_0000_0000_0000 <= x * k <= 0x8000_0000_0000_0000_0000_0000)
                    by (nonlinear_arith)
                    requires
                        -0x8000_0000 <= x <= 0x8000_0000,
                        0 <= k <= 0x1_0000_0000_0000_0000,
                ;
            }
            let sum: i128 = (a as i128) * n + (b as i128);
            let q: i128 = floor_div(2 * sum + (n + 1), 2 * (n + 1));
            proof {
                let d = 2 * (n + 1);
                let m = 2 * sum + (n + 1);
                let (x, y, k) = (a as int, b as int, n as int);
                assert(-0x1_0000_0000 * d <= m <= 0x1_0000_0000 * d) by (nonlinear_arith)
                    requires
                        d == 2 * (k + 1),
                        m == 2 * (x * k + y) + (k + 1),
                        -0x8000_0000 <= x <= 0x7FFF_FFFF,
                        -0x8000_0000 <= y <= 0x7FFF_FFFF,
                        k >= 0,
                ;
                assert(-0x1_0000_0000 <= m / d <= 0x1_0000_0000) by (nonlinear_arith)
                    requires
                        -0x1_0000_0000 * d <= m <= 0x1_0000_0000 * d,
                        d > 0,
                ;
            }
            Some(narrow(q as i64))
        },
        (Some(a), None) => Some(a),
        (None, b) => b,
    }
}

impl Typography {
    /// Takes up the typography of one more character.
    fn merge(&mut self, fact: Typography, count: u64)
        ensures
            *final(self) == merged_typography(*old(self), fact, count as int),
    {
        self.font_size = merge_metric(self.font_size, fact.font_size, count);
        self.font_height = merge_metric(self.font_height, fact.font_height, count);
        self.font_ascent = merge_metric(self.font_ascent, fact.font_ascent, count);
        self.font_descent = merge_metric(self.font_descent, fact.font_descent, count);
        if self.text_object_index != fact.text_object_index {
            self.text_object_index = None;
        }
        if self.link.is_none() {
            self.link = fact.link;
        }
        self.strike = self.strike || fact.strike;
    }
}

impl RunFacts {
    /// Whether the counts of a run fit its characters.
    pub open spec fn counted(self) -> bool {
        &&& 1 <= self.character_count < u64::MAX
        &&& self.unicode_error_count <= self.character_count
        &&& -0x1_0000_0000 * self.character_count <= self.width_sum <= 0x1_0000_0000
            * self.character_count
    }
}

impl CurrentSegment {
    /// Starts one segment from its first visible character fact.
    fn from_fact(character: char, fact: TextCharFact) -> (segment: CurrentSegment)
        ensures
            segment@ == started(fact, character),
            segment.facts.counted(),
    {
        let baseline: Option<Baseline> = fact.oblique_baseline();
        let mut raw_text: String = String::new();
        raw_text.push(character);
        push_text(&mut raw_text, fact.tail.as_str());
        let mut char_codes: Vec<u32> = Vec::new();
        char_codes.push(fact.char_code);
        let segment = CurrentSegment {
            raw_text,
            char_codes,
            repair_actions: copy_actions(&fact.repair_actions),
            facts: RunFacts {
                bbox: fact.loose_bbox,
                last_bbox: fact.bbox,
                baseline,
                width_sum: fact.bbox.width() as i128,
                character_count: 1,
                unicode_error_count: if fact.unicode_map_error {
                    1
                } else {
                    0
                },
                generated_space: false,
                typography: fact.typography,
            },
        };
        assert(segment@ =~= started(fact, character));
        segment
    }

    /// Returns whether an incoming visible character must start a new segment.
    fn must_split(&self, fact: &TextCharFact) -> (yes: bool)
        requires
            self.facts.counted(),
        ensures
            yes == must_split_run(self.facts, *fact),
    {
        let run: &RunFacts = &self.facts;
        let axes: TextAxes = TextAxes::from(run.typography.rotation);
        let (previous, incoming): (Frame, Frame) = match (
            frame_in(&axes, run.last_bbox),
            frame_in(&axes, fact.bbox),
        ) {
            (Some(previous), Some(incoming)) => (previous, incoming),
            _ => {
                return true;
            },
        };
        let turned: bool = axes.is_oblique();
        let shift_x2: i128 = if !turned {
            2 * distance(incoming.top, previous.top)
        } else {
            match (&run.baseline, &fact.origin) {
                (Some(baseline), Some(origin)) => 2 * distance(
                    axes.project(*origin).1,
                    axes.project(baseline.start).1,
                ),
                _ => distance(incoming.top + incoming.bottom, previous.top + previous.bottom),
            }
        };
        let allowed_x2: i64 = if turned && run.baseline.is_some() && fact.origin.is_some() {
            MIN_JUMP_X2
        } else {
            max_i64(
                max_i64(previous.bottom - previous.top, incoming.bottom - incoming.top),
                MIN_JUMP_X2,
            )
        };
        let back: bool = if turned {
            2 * (incoming.left - previous.left) + (previous.right - previous.left) < 0
        } else {
            let step: i128 = (incoming.left - previous.left) as i128;
            proof {
                let (x, k) = (step as int, 2 * run.character_count as int);
                assert(-0x20_0000_0000_0000_0000_0000_0000 <= x * k
                    <= 0x20_0000_0000_0000_0000_0000_0000) by (nonlinear_arith)
                    requires
                        -0x10_0000_0000 <= x <= 0x10_0000_0000,
                        0 <= k <= 0x2_0000_0000_0000_0000,
                ;
            }
            step * (2 * (run.character_count as i128)) + run.width_sum < 0
        };
        shift_x2 > allowed_x2 as i128 || incoming.left - previous.right > MAX_INLINE_GAP || back
            || !is_parallel(run.typography.rotation.angle, fact.typography.rotation.angle)
            || !is_same_text(&run.typography.font_name, &fact.typography.font_name)
            || run.typography.font_flags != fact.typography.font_flags
    }

    /// Appends one source whitespace without changing visible geometry.
    fn push_source_space(&mut self, fact: &TextCharFact)
        requires
            old(self).facts.counted(),
        ensures
            final(self)@ == spaced(old(self)@, *fact),
            final(self).facts.counted(),
    {
        let count: usize = self.raw_text.as_str().unicode_len();
        let ends: bool = count > 0 && self.raw_text.as_str().get_char(count - 1) == ' ';
        if !ends {
            self.raw_text.push(' ');
        }
        self.facts.generated_space = self.facts.generated_space || fact.generated;
        self.char_codes.push(fact.char_code);
        let mut more: Vec<RepairAction> = copy_actions(&fact.repair_actions);
        self.repair_actions.append(&mut more);
        assert(self@ =~= spaced(old(self)@, *fact));
    }

    /// Appends one visible source character without inferring missing text.
    fn push_visible(&mut self, fact: TextCharFact)
        requires
            old(self).facts.counted(),
            old(self).facts.character_count < u64::MAX - 1,
        ensures
            final(self)@ == extended(old(self)@, fact),
            final(self).facts.counted(),
            final(self).facts.character_count == old(self).facts.character_count + 1,
    {
        let next: Option<Baseline> = fact.oblique_baseline();
        let width: i128 = fact.bbox.width() as i128;
        let count: u64 = self.facts.character_count;
        self.facts.baseline = match (self.facts.baseline, next) {
            (Some(baseline), Some(next)) => Some(
                Baseline { start: baseline.start, end: next.end },
            ),
            _ => None,
        };
        let ghost before = self.raw_text@;
        let mut text: Vec<char> = chars_of(self.raw_text.as_str());
        let single: bool = fact.tail.as_str().unicode_len() == 0;
        let overlay: Option<char> = if text.len() > 0 && single {
            GlyphNormalizer::compose(
                text[text.len() - 1],
                &self.facts.last_bbox,
                fact.character,
                &fact.bbox,
            )
        } else {
            None
        };
        match overlay {
            Some(both) => {
                let end: usize = text.len() - 1;
                text.set(end, both);
                self.raw_text = text_from(&text);
                assert(self.raw_text@ =~= before.drop_last().push(both));
            },
            None => {
                self.raw_text.push(fact.character);
                push_text(&mut self.raw_text, fact.tail.as_str());
                assert(self.raw_text@ =~= before + (seq![fact.character] + fact.tail@));
            },
        }
        let mut more: Vec<RepairAction> = copy_actions(&fact.repair_actions);
        self.repair_actions.append(&mut more);
        self.char_codes.push(fact.char_code);
        self.facts.bbox = self.facts.bbox.union(&fact.loose_bbox);
        self.facts.last_bbox = fact.bbox;
        self.facts.width_sum = self.facts.width_sum + width;
        self.facts.character_count = count + 1;
        if fact.unicode_map_error {
            self.facts.unicode_error_count = self.facts.unicode_error_count + 1;
        }
        self.facts.typography.merge(fact.typography, count);
        assert(self@ =~= extended(old(self)@, fact));
    }

    /// Converts the completed segment into an indexed draft.
    fn finish(self, page_number: u32, extraction_order: u32) -> (draft: TextItemDraft)
        ensures
            draft@ == draft_of(self@, page_number as nat, extraction_order),
    {
        let unicode_mapping: UnicodeMappingStatus = if self.facts.unicode_error_count == 0 {
            UnicodeMappingStatus::Complete
        } else if self.facts.unicode_error_count >= self.facts.character_count {
            UnicodeMappingStatus::Missing
        } else {
            UnicodeMappingStatus::Partial
        };
        let draft = TextItemDraft {
            id: TextItemId::native(page_number, extraction_order),
            extraction_order,
            raw_text: self.raw_text,
            char_codes: self.char_codes,
            repair_actions: self.repair_actions,
            bbox: self.facts.bbox,
            baseline: self.facts.baseline,
            unicode_mapping,
            generated_space: self.facts.generated_space,
            typography: self.facts.typography,
        };
        assert(draft@ =~= draft_of(self@, page_number as nat, extraction_order));
        draft
    }
}

/// The drafts of a list.
pub open spec fn draft_models(drafts: Seq<TextItemDraft>) -> Seq<DraftModel> {
    Seq::new(drafts.len(), |i: int| drafts[i]@)
}

/// Accumulates ordered character facts into deterministic text item drafts.
#[derive(Debug)]
pub struct SegmentBuilder {
    page_number: u32,
    next_extraction_index: u32,
    current: Option<CurrentSegment>,
    completed: Vec<TextItemDraft>,
    /// Number of facts consumed.
    consumed: u64,
}

impl View for SegmentBuilder {
    type V = BuilderModel;

    closed spec fn view(&self) -> BuilderModel {
        BuilderModel {
            page_number: self.page_number,
            next: self.next_extraction_index,
            current: match self.current {
                None => None,
                Some(segment) => Some(segment@),
            },
            completed: draft_models(self.completed@),
        }
    }
}

impl SegmentBuilder {
    /// Number of facts consumed.
    pub closed spec fn count(self) -> int {
        self.consumed as int
    }

    /// The counts of the run fit the facts consumed.
    pub closed spec fn wf(self) -> bool {
        match self.current {
            None => true,
            Some(segment) => segment.facts.counted() && segment.facts.character_count
                <= self.consumed,
        }
    }

    /// Creates an empty builder for one public one-based page number.
    pub fn new(page_number: u32) -> (builder: SegmentBuilder)
        ensures
            builder.wf(),
            builder.count() == 0,
            builder@ == (BuilderModel {
                page_number,
                next: 0,
                current: None,
                completed: Seq::empty(),
            }),
    {
        let builder = SegmentBuilder {
            page_number,
            next_extraction_index: 0,
            current: None,
            completed: Vec::new(),
            consumed: 0,
        };
        assert(draft_models(builder.completed@) =~= Seq::empty());
        builder
    }

    /// Finalizes the current non-empty segment and advances the stable index.
    fn flush(&mut self) -> (done: Result<(), ExtractError>)
        requires
            old(self).wf(),
        ensures
            final(self).wf(),
            final(self).count() == old(self).count(),
            done is Ok <==> flushed(old(self)@) is Some,
            done is Ok ==> Some(final(self)@) == flushed(old(self)@) && final(self)@.current
                is None,
            done matches Err(error) ==> error == ExtractError::ExtractionIndexOverflow,
    {
        let ghost before = self@;
        match self.current.take() {
            None => {
                assert(self@ =~= before);
                Ok(())
            },
            Some(segment) => {
                if self.next_extraction_index == u32::MAX {
                    return Err(ExtractError::ExtractionIndexOverflow);
                }
                let order: u32 = self.next_extraction_index;
                self.next_extraction_index = order + 1;
                let draft: TextItemDraft = segment.finish(self.page_number, order);
                let ghost drafts = self.completed@;
                self.completed.push(draft);
                assert(draft_models(self.completed@) =~= draft_models(drafts).push(draft@));
                assert(Some(self@) == flushed(before));
                Ok(())
            },
        }
    }

    /// Consumes one character fact, flushing only at explicit discontinuities.
    pub fn push(&mut self, fact: TextCharFact) -> (done: Result<(), ExtractError>)
        requires
            old(self).wf(),
            old(self).count() < u64::MAX - 2,
        ensures
            final(self).wf(),
            done is Ok <==> pushed(old(self)@, fact) is Some,
            done is Ok ==> Some(final(self)@) == pushed(old(self)@, fact) && final(self).count()
                == old(self).count() + 1,
            done matches Err(error) ==> error == ExtractError::ExtractionIndexOverflow,
    {
        let ghost before = self@;
        self.consumed = self.consumed + 1;
        assert(self@ =~= before);
        let single: bool = fact.tail.as_str().unicode_len() == 0;
        if fact.explicit_break || (single && (fact.character == '\n' || fact.character == '\r')) {
            return self.flush();
        }
        if single && fact.character == '\u{1}' {
            self.push_space(&fact);
            return Ok(());
        }
        if single && (fact.character == '\u{2}' || has_action(
            &fact.repair_actions,
            RepairAction::EncodedHyphen,
        )) {
            return self.push_hyphen(fact);
        }
        if single && is_control(fact.character) {
            if let Some(mut segment) = self.current.take() {
                let ghost was = segment@;
                segment.repair_actions.push(RepairAction::RemovedControl);
                assert(segment@ =~= repaired(was, RepairAction::RemovedControl));
                self.current = Some(segment);
            }
            return Ok(());
        }
        if single && is_whitespace(fact.character) {
            self.push_space(&fact);
            return Ok(());
        }
        self.push_visible(fact)
    }

    fn push_space(&mut self, fact: &TextCharFact)
        requires
            old(self).wf(),
        ensures
            final(self).wf(),
            final(self).count() == old(self).count(),
            final(self)@ == changed(old(self)@, |segment: SegmentModel| spaced(segment, *fact)),
    {
        if let Some(mut segment) = self.current.take() {
            segment.push_source_space(fact);
            self.current = Some(segment);
        }
    }

    fn push_hyphen(&mut self, fact: TextCharFact) -> (done: Result<(), ExtractError>)
        requires
            old(self).wf(),
            old(self).count() >= 1,
        ensures
            final(self).wf(),
            final(self).count() == old(self).count(),
            done is Ok <==> hyphenated(old(self)@, fact) is Some,
            done is Ok ==> Some(final(self)@) == hyphenated(old(self)@, fact),
            done matches Err(error) ==> error == ExtractError::ExtractionIndexOverflow,
    {
        match self.flush() {
            Ok(_) => {},
            Err(error) => {
                return Err(error);
            },
        }
        let ghost ended = self@;
        let hyphen: CurrentSegment = if fact.character == '\u{2}' {
            let mut made: CurrentSegment = CurrentSegment::from_fact('-', fact);
            let ghost was = made@;
            made.repair_actions.push(RepairAction::EncodedHyphen);
            assert(made@ =~= repaired(was, RepairAction::EncodedHyphen));
            made
        } else {
            CurrentSegment::from_fact(fact.character, fact)
        };
        self.current = Some(hyphen);
        assert(self@ =~= (BuilderModel { current: Some(hyphen_run(fact)), ..ended }));
        self.flush()
    }

    fn push_visible(&mut self, fact: TextCharFact) -> (done: Result<(), ExtractError>)
        requires
            old(self).wf(),
            1 <= old(self).count() < u64::MAX - 1,
            // One of the facts consumed is the one at hand.
            old(self)@.current is Some ==> old(self)@.current->0.facts.character_count + 1
                <= old(self).count(),
        ensures
            final(self).wf(),
            final(self).count() == old(self).count(),
            done is Ok <==> shown(old(self)@, fact) is Some,
            done is Ok ==> Some(final(self)@) == shown(old(self)@, fact),
            done matches Err(error) ==> error == ExtractError::ExtractionIndexOverflow,
    {
        let ghost before = self@;
        match self.current.take() {
            None => {
                self.current = Some(CurrentSegment::from_fact(fact.character, fact));
                assert(Some(self@) == shown(before, fact));
                Ok(())
            },
            Some(mut segment) => {
                if segment.must_split(&fact) {
                    self.current = Some(segment);
                    assert(self@ =~= before);
                    match self.flush() {
                        Ok(_) => {},
                        Err(error) => {
                            return Err(error);
                        },
                    }
                    self.current = Some(CurrentSegment::from_fact(fact.character, fact));
                    assert(Some(self@) == shown(before, fact));
                    Ok(())
                } else {
                    segment.push_visible(fact);
                    self.current = Some(segment);
                    assert(Some(self@) == shown(before, fact));
                    Ok(())
                }
            },
        }
    }

    /// Flushes the final segment and returns drafts in extraction order.
    pub fn finish(self) -> (drafts: Result<Vec<TextItemDraft>, ExtractError>)
        requires
            self.wf(),
        ensures
            drafts is Ok <==> flushed(self@) is Some,
            drafts matches Ok(list) ==> draft_models(list@) == flushed(self@)->0.completed,
            drafts matches Err(error) ==> error == ExtractError::ExtractionIndexOverflow,
    {
        let mut builder: SegmentBuilder = self;
        match builder.flush() {
            Ok(_) => Ok(builder.completed),
            Err(error) => Err(error),
        }
    }
}

} // verus!
