//! Which engines a parser gets, and when none can be built.

use vstd::prelude::*;

use crate::config::FusionConfig;
use crate::parser::{
    stage, DocParseError, DocParserBuilder, EngineConfig, EngineSource, FormulaEngineConfig,
    FormulaSource,
};

verus! {

/// An optional stage is there where an engine was injected or the stage is enabled; an injected
/// engine goes before a loaded one, and supplied bytes before configured ones.
pub proof fn stages_prefer_injected_engines(injected: bool, enabled: bool, supplied: bool)
    ensures
        stage(injected, enabled, supplied) is Some <==> injected || enabled,
        injected ==> stage(injected, enabled, supplied) == Some(EngineSource::Injected),
        !injected && enabled && supplied ==> stage(injected, enabled, supplied) == Some(
            EngineSource::Artifacts,
        ),
        !injected && enabled && !supplied ==> stage(injected, enabled, supplied) == Some(
            EngineSource::Configured,
        ),
{
}

/// Whether a stage lacks the bytes it is to be loaded from: it is enabled, no engine was injected,
/// and bytes were supplied without its own.
pub open spec fn lacks_bytes(builder: DocParserBuilder, enabled: bool, injected: bool, own: bool) -> bool {
    enabled && !injected && builder.artifacts is Some && !own
}

/// A parser can be built where it is configured and no enabled stage lacks its bytes: a local
/// formula model needs those of its engine and no other's, text recognition and tables their own.
pub proof fn complete_builders_are_not_refused(builder: DocParserBuilder)
    ensures
        builder.config is None <==> builder.refusal() == Some(DocParseError::MissingConfiguration),
        builder.config matches Some(config) ==> (builder.refusal() is None <==> {
            let own = builder.artifacts->0;
            let local = (config.inline_formulas || config.display_formulas)
                && !builder.formula_engine && builder.artifacts is Some && (
            config.formula_engine == FormulaEngineConfig::Texo || config.formula_engine
                == FormulaEngineConfig::Pp);
            &&& local && config.formula_engine == FormulaEngineConfig::Pp ==> own.formula
                && !own.texo_formula
            &&& local && config.formula_engine == FormulaEngineConfig::Texo ==> own.texo_formula
                && !own.formula
            &&& !lacks_bytes(builder, config.ocr, builder.ocr_engine, own.ocr)
            &&& !lacks_bytes(builder, config.tables, builder.table_engine, own.tsr)
        }),
{
}

/// Formulas are recognized where an engine was injected or formulas are enabled, by the engine
/// that the configuration names.
pub proof fn formulas_go_to_the_configured_engine(builder: DocParserBuilder, config: EngineConfig)
    ensures
        builder.formula_engine ==> builder.formula_source(config) == Some(FormulaSource::Injected),
        !builder.formula_engine && !config.inline_formulas && !config.display_formulas
            ==> builder.formula_source(config) is None,
        !builder.formula_engine && (config.inline_formulas || config.display_formulas) ==> {
            let found = builder.formula_source(config);
            &&& found is Some
            &&& config.formula_engine == FormulaEngineConfig::Mineru <==> found->0
                == FormulaSource::Mineru
            &&& config.formula_engine == FormulaEngineConfig::Texo <==> found->0 is Texo
            &&& config.formula_engine == FormulaEngineConfig::Pp <==> found->0 is Pp
        },
{
}

/// A parser finds layouts with the injected engine, else from supplied bytes, else as configured;
/// it resolves glyphs where a resolver was given or the platform has one.
pub proof fn parsers_use_what_they_are_given(builder: DocParserBuilder, config: EngineConfig)
    ensures
        builder.layout_engine ==> builder.parser(config).layout == EngineSource::Injected,
        !builder.layout_engine && builder.artifacts is Some ==> builder.parser(config).layout
            == EngineSource::Artifacts,
        !builder.layout_engine && builder.artifacts is None ==> builder.parser(config).layout
            == EngineSource::Configured,
        builder.parser(config).resolves_glyphs <==> builder.glyph_resolver
            || builder.default_resolver,
        builder.parser(config).own_provider <==> builder.pdfium_provider,
        builder.parser(config).tables is Some <==> builder.table_engine || config.tables,
        builder.parser(config).ocr is Some <==> builder.ocr_engine || config.ocr,
{
}

/// The standard weights of a score sum up to one, coverage weighing more than all others, and the
/// share that a region with the middle of a fragment needs is the smaller one.
pub proof fn standard_weights_sum_up_to_one()
    ensures
        ({
            let c = FusionConfig::standard();
            &&& c.assignment_coverage_weight + c.assignment_center_weight
                + c.assignment_baseline_weight + c.assignment_confidence_weight
                + c.assignment_specificity_weight == 1_000_000
            &&& c.assignment_coverage_weight > c.assignment_center_weight
                + c.assignment_baseline_weight + c.assignment_confidence_weight
                + c.assignment_specificity_weight
            &&& c.assignment_center_weight == c.assignment_baseline_weight
                + c.assignment_confidence_weight
            &&& c.assignment_baseline_weight == c.assignment_confidence_weight
            &&& c.assignment_confidence_weight == 2 * c.assignment_specificity_weight
            &&& c.minimum_line_coverage == 3 * c.center_minimum_line_coverage
            &&& 10 * c.center_minimum_line_coverage == 1_000_000
            &&& c.estimated_font_size_tolerance == 5_000
        }),
{
}

/// The tolerance of font sizes is the configured one, and at least half a point.
pub proof fn tolerances_are_at_least_half_a_point(config: FusionConfig)
    ensures
        config.size_tolerance() >= 5_000,
        config.size_tolerance() >= config.estimated_font_size_tolerance,
        config.size_tolerance() == 5_000 || config.size_tolerance()
            == config.estimated_font_size_tolerance,
{
}

} // verus!
