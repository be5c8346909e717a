//! Where runs of characters end, and what they keep of their characters.

use vstd::prelude::*;

use crate::chars::{is_space, same_text};
use crate::extract::text::{
    extended, mapping_of, merged_metric, merged_typography, must_split_run, pushed, spaced, started,
    BuilderModel, RunFacts, SegmentModel, TextCharFact, Typography,
};
use crate::line::assembly_laws::apart;
use crate::line::axes::oblique;
use crate::types::{RepairAction, UnicodeMappingStatus};

verus! {

/// Whether a character goes on with a run along an axis: its top is off by at most half of the
/// greater height, or by two points; it starts at most fifteen points behind the last one, and
/// not before it by more than half the mean width; it is turned by at most two degrees and has
/// the font and the flags of the run.
pub open spec fn goes_on(run: RunFacts, fact: TextCharFact) -> bool {
    let (last, next) = (run.last_bbox, fact.bbox);
    let off = apart(next.top as int, last.top as int);
    &&& 2 * off <= last.bottom - last.top || 2 * off <= next.bottom - next.top || off <= 20_000
    &&& next.left - last.right <= 150_000
    &&& (last.left - next.left) * (2 * run.character_count) <= run.width_sum
    &&& -20_000 <= run.typography.rotation.angle - fact.typography.rotation.angle <= 20_000
    &&& same_text(run.typography.font_name, fact.typography.font_name)
    &&& run.typography.font_flags == fact.typography.font_flags
}

/// A run along an axis ends exactly where the next character does not go on with it.
pub proof fn runs_end_where_characters_jump(run: RunFacts, fact: TextCharFact)
    requires
        !oblique(run.typography.rotation.angle as int),
    ensures
        must_split_run(run, fact) <==> !goes_on(run, fact),
{
    let (last, next) = (run.last_bbox, fact.bbox);
    assert((next.left - last.left) * (2 * run.character_count) == -((last.left - next.left) * (2
        * run.character_count))) by (nonlinear_arith);
}

/// The metric of a run that takes up a character is the mean of all, to the nearest unit: the
/// sum of all differs from it by at most half a unit a character.
pub proof fn metrics_are_means(a: i32, b: i32, count: int)
    requires
        count >= 1,
    ensures
        merged_metric(Some(a), Some(b), count) is Some,
        -(count + 1) <= 2 * (merged_metric(Some(a), Some(b), count)->0 * (count + 1)) - 2 * (a
            * count + b) <= count + 1,
        merged_metric(Some(a), None, count) == Some(a),
        merged_metric(None, Some(b), count) == Some(b),
        merged_metric(None, None, count) is None,
{
    let sum = a * count + b;
    let n = count + 1;
    let top = 2 * sum + n;
    let q = top / (2 * n);
    vstd::arithmetic::div_mod::lemma_fundamental_div_mod(top, 2 * n);
    vstd::arithmetic::div_mod::lemma_mod_bound(top, 2 * n);
    assert((2 * n) * q == 2 * (q * n)) by (nonlinear_arith);
    assert(-0x8000_0000 <= q <= 0x7FFF_FFFF) by (nonlinear_arith)
        requires
            n == count + 1,
            count >= 1,
            sum == a * count + b,
            top == 2 * sum + n,
            top == (2 * n) * q + top % (2 * n),
            0 <= top % (2 * n) < 2 * n,
            -0x8000_0000 <= a <= 0x7FFF_FFFF,
            -0x8000_0000 <= b <= 0x7FFF_FFFF,
    {
        assert(a * count <= 0x7FFF_FFFF * count);
        assert(a * count >= -0x8000_0000 * count);
        assert(sum <= 0x7FFF_FFFF * n);
        assert(sum >= -0x8000_0000 * n);
        if q > 0x7FFF_FFFF {
            assert((2 * n) * q >= (2 * n) * 0x8000_0000);
        }
        if q < -0x8000_0000 {
            assert((2 * n) * q <= (2 * n) * (-0x8000_0001));
        }
    }
}

/// A run takes up a character behind its text: its box grows around the box of the character, the
/// character is counted with its width and its fault, and its code and repairs come last.
pub proof fn runs_take_up_characters(segment: SegmentModel, fact: TextCharFact)
    requires
        segment.facts.character_count < u64::MAX,
        segment.facts.unicode_error_count < u64::MAX,
        -0x1000_0000_0000_0000_0000_0000 <= segment.facts.width_sum
            <= 0x1000_0000_0000_0000_0000_0000,
        fact.character != '\u{25CB}',
        fact.character != '\u{25D6}',
    ensures
        ({
            let next = extended(segment, fact);
            let (old, new, own) = (segment.facts.bbox, next.facts.bbox, fact.loose_bbox);
            &&& next.raw_text == segment.raw_text.push(fact.character) + fact.tail@
            &&& next.char_codes == segment.char_codes.push(fact.char_code)
            &&& next.repair_actions == segment.repair_actions + fact.repair_actions@
            &&& new.left <= old.left && new.left <= own.left && (new.left == old.left || new.left
                == own.left)
            &&& new.top <= old.top && new.top <= own.top && (new.top == old.top || new.top
                == own.top)
            &&& new.right >= old.right && new.right >= own.right && (new.right == old.right
                || new.right == own.right)
            &&& new.bottom >= old.bottom && new.bottom >= own.bottom && (new.bottom == old.bottom
                || new.bottom == own.bottom)
            &&& next.facts.last_bbox == fact.bbox
            &&& next.facts.character_count == segment.facts.character_count + 1
            &&& next.facts.unicode_error_count == segment.facts.unicode_error_count + (
            if fact.unicode_map_error {
                1int
            } else {
                0
            })
            &&& next.facts.width_sum == segment.facts.width_sum + (fact.bbox.right
                - fact.bbox.left)
        }),
{
    assert(extended(segment, fact).raw_text =~= segment.raw_text.push(fact.character)
        + fact.tail@);
}

/// A run starts with its character alone.
pub proof fn runs_start_with_one_character(fact: TextCharFact)
    ensures
        started(fact, fact.character).raw_text.len() == 1 + fact.tail@.len(),
        started(fact, fact.character).raw_text[0] == fact.character,
        started(fact, fact.character).raw_text.skip(1) == fact.tail@,
        started(fact, fact.character).facts.bbox == fact.loose_bbox,
        started(fact, fact.character).facts.last_bbox == fact.bbox,
        started(fact, fact.character).facts.character_count == 1,
        started(fact, fact.character).facts.width_sum == fact.bbox.right - fact.bbox.left,
        started(fact, fact.character).facts.unicode_error_count == (if fact.unicode_map_error {
            1int
        } else {
            0
        }),
        started(fact, fact.character).facts.typography == fact.typography,
        !started(fact, fact.character).facts.generated_space,
{
    assert(started(fact, fact.character).raw_text.skip(1) =~= fact.tail@);
}

/// What a run knows of links, strikes and objects: the first link stays, one struck character
/// strikes the run, and characters of two objects belong to none.
pub proof fn runs_keep_links_and_strikes(run: Typography, fact: Typography, count: int)
    ensures
        run.link is Some ==> merged_typography(run, fact, count).link == run.link,
        run.link is None ==> merged_typography(run, fact, count).link == fact.link,
        merged_typography(run, fact, count).strike <==> run.strike || fact.strike,
        run.text_object_index != fact.text_object_index ==> merged_typography(
            run,
            fact,
            count,
        ).text_object_index is None,
        run.text_object_index == fact.text_object_index ==> merged_typography(
            run,
            fact,
            count,
        ).text_object_index == run.text_object_index,
        merged_typography(run, fact, count).font_name == run.font_name,
        merged_typography(run, fact, count).rotation == run.rotation,
{
}

/// The text of a run is fully mapped where no character lacks a mapping, not at all where every
/// one does, and else in part.
pub proof fn mappings_count_faults(run: RunFacts)
    requires
        run.character_count > 0,
        run.unicode_error_count <= run.character_count,
    ensures
        mapping_of(run) == UnicodeMappingStatus::Complete <==> run.unicode_error_count == 0,
        mapping_of(run) == UnicodeMappingStatus::Missing <==> run.unicode_error_count
            == run.character_count,
        mapping_of(run) == UnicodeMappingStatus::Partial <==> 0 < run.unicode_error_count
            < run.character_count,
{
}

/// A blank behind a run adds one space, and none where one stands there already; behind none it
/// adds nothing.
pub proof fn blanks_add_one_space(b: BuilderModel, fact: TextCharFact)
    requires
        !fact.explicit_break,
        fact.tail@.len() == 0,
        fact.character == ' ' || fact.character == '\u{1}',
        !fact.repair_actions@.contains(RepairAction::EncodedHyphen),
    ensures
        pushed(b, fact) is Some,
        pushed(b, fact)->0.completed == b.completed,
        b.current is None ==> pushed(b, fact)->0.current is None,
        b.current matches Some(run) ==> pushed(b, fact)->0.current is Some && {
            let after = pushed(b, fact)->0.current->0;
            &&& after.raw_text == (if run.raw_text.len() > 0 && run.raw_text.last() == ' ' {
                run.raw_text
            } else {
                run.raw_text + seq![' ']
            })
            &&& after.facts.character_count == run.facts.character_count
            &&& after.facts.bbox == run.facts.bbox
            &&& after.facts.generated_space <==> run.facts.generated_space || fact.generated
        },
{
    if let Some(run) = b.current {
        assert(spaced(run, fact).raw_text =~= if run.raw_text.len() > 0 && run.raw_text.last()
            == ' ' {
            run.raw_text
        } else {
            run.raw_text + seq![' ']
        });
    }
}

/// A line break ends the run: its text becomes the next text of the page, unchanged.
pub proof fn line_breaks_end_runs(b: BuilderModel, fact: TextCharFact)
    requires
        fact.explicit_break || (fact.tail@.len() == 0 && (fact.character == '\n' || fact.character
            == '\r')),
        b.next < u32::MAX,
    ensures
        pushed(b, fact) is Some,
        pushed(b, fact)->0.current is None,
        b.current is None ==> pushed(b, fact)->0.completed == b.completed,
        b.current matches Some(run) ==> {
            let after = pushed(b, fact)->0.completed;
            &&& after.len() == b.completed.len() + 1
            &&& after.drop_last() == b.completed
            &&& after.last().raw_text == run.raw_text
            &&& after.last().bbox == run.facts.bbox
            &&& after.last().extraction_order == b.next
        },
{
    if let Some(run) = b.current {
        assert(pushed(b, fact)->0.completed.drop_last() =~= b.completed);
    }
}

/// An encoded hyphen stands in a run of its own, as a hyphen.
pub proof fn encoded_hyphens_stand_alone(b: BuilderModel, fact: TextCharFact)
    requires
        !fact.explicit_break,
        fact.tail@.len() == 0,
        fact.character == '\u{2}',
        b.next < u32::MAX - 1,
    ensures
        pushed(b, fact) is Some,
        pushed(b, fact)->0.current is None,
        pushed(b, fact)->0.completed.len() == b.completed.len() + (if b.current is Some {
            2int
        } else {
            1
        }),
        pushed(b, fact)->0.completed.last().raw_text == seq!['-'],
        pushed(b, fact)->0.completed.last().bbox == fact.loose_bbox,
        b.current matches Some(run) ==> pushed(b, fact)->0.completed[b.completed.len()
            as int].raw_text == run.raw_text,
{
    assert(started(fact, '-').raw_text =~= seq!['-']);
}

/// Any other control code shows nothing: the text stays as it is.
pub proof fn control_codes_show_nothing(b: BuilderModel, fact: TextCharFact)
    requires
        !fact.explicit_break,
        fact.tail@.len() == 0,
        fact.character as u32 == 0 || 3 <= fact.character as u32 <= 9 || fact.character as u32
            == 11 || fact.character as u32 == 12 || 14 <= fact.character as u32 <= 31
            || fact.character as u32 == 127,
        !fact.repair_actions@.contains(RepairAction::EncodedHyphen),
    ensures
        pushed(b, fact) is Some,
        pushed(b, fact)->0.completed == b.completed,
        b.current is None ==> pushed(b, fact)->0.current is None,
        b.current matches Some(run) ==> pushed(b, fact)->0.current is Some
            && pushed(b, fact)->0.current->0.raw_text == run.raw_text
            && pushed(b, fact)->0.current->0.repair_actions.last() == RepairAction::RemovedControl,
{
}

/// A visible character goes on with the run where it can, and else starts the next one.
pub proof fn visible_characters_go_on_or_start(b: BuilderModel, fact: TextCharFact, run: SegmentModel)
    requires
        !fact.explicit_break,
        fact.character as u32 > 127,
        !(128 <= fact.character as u32 <= 159),
        !is_space(fact.character),
        !fact.repair_actions@.contains(RepairAction::EncodedHyphen),
        b.current == Some(run),
        b.next < u32::MAX,
        !oblique(run.facts.typography.rotation.angle as int),
    ensures
        pushed(b, fact) is Some,
        goes_on(run.facts, fact) ==> pushed(b, fact)->0.completed == b.completed
            && pushed(b, fact)->0.current == Some(extended(run, fact)),
        !goes_on(run.facts, fact) ==> pushed(b, fact)->0.completed.len() == b.completed.len() + 1
            && pushed(b, fact)->0.completed.last().raw_text == run.raw_text
            && pushed(b, fact)->0.current == Some(started(fact, fact.character)),
{
    runs_end_where_characters_jump(run.facts, fact);
}

} // verus!
