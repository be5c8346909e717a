//! Choice of engines and of per-call options.

use vstd::prelude::*;

use crate::progress::ParseProgress;

verus! {

/// Per-call table policy, optional structure provider, and serial progress observations.
pub struct ParseOptions<'a, T, E, O> {
    /// Missing values inherit the parser instance's table configuration.
    pub table: Option<T>,
    pub table_engine: Option<E>,
    pub observer: Option<&'a O>,
}

impl<'a, T, E, O> ParseOptions<'a, T, E, O> {
    /// Options that override nothing.
    pub fn none() -> (options: ParseOptions<'a, T, E, O>)
        ensures
            options.table is None,
            options.table_engine is None,
            options.observer is None,
    {
        ParseOptions { table: None, table_engine: None, observer: None }
    }

    /// Combines per-call overrides with the parser's own policy and provider.
    pub fn table_runtime<'b>(&'b self, config: &'b T, default_engine: Option<&'b E>) -> (chosen: (
        &'b T,
        Option<&'b E>,
    ))
        ensures
            *chosen.0 == (match self.table {
                Some(table) => table,
                None => *config,
            }),
            chosen.1 == (match self.table_engine {
                Some(engine) => Some(&engine),
                None => default_engine,
            }),
    {
        let policy: &T = match &self.table {
            Some(table) => table,
            None => config,
        };
        let engine: Option<&E> = match &self.table_engine {
            Some(engine) => Some(engine),
            None => default_engine,
        };
        (policy, engine)
    }
}

/// The configured recognizer of formulas.
#[derive(Debug, Clone, Copy, PartialEq, Eq, Structural)]
pub enum FormulaEngineConfig {
    Texo,
    Pp,
    /// A remote service that is handed crops only.
    Mineru,
}

/// What of the configuration decides which engines are loaded.
#[derive(Debug, Clone, Copy, PartialEq, Eq, Structural)]
pub struct EngineConfig {
    pub inline_formulas: bool,
    pub display_formulas: bool,
    pub formula_engine: FormulaEngineConfig,
    /// Tables are recovered by a model and not by rules alone.
    pub tables: bool,
    pub ocr: bool,
}

/// Which explicit model bytes were supplied beside those of the layout model.
#[derive(Debug, Clone, Copy, PartialEq, Eq, Structural)]
pub struct ParserArtifacts {
    pub tsr: bool,
    pub ocr: bool,
    pub formula: bool,
    pub texo_formula: bool,
}

/// Why a parser cannot be built.
#[derive(Debug, Clone, Copy, PartialEq, Eq, Structural)]
pub enum DocParseError {
    /// Formula recognition was enabled without its graph/tokenizer byte set.
    MissingFormulaArtifacts,
    /// Byte sets of both formula models were supplied.
    TwoFormulaArtifacts,
    /// The supplied formula bytes are not those of the configured model.
    OtherFormulaArtifacts,
    /// A builder cannot construct a parser without validated configuration.
    MissingConfiguration,
    /// Byte-based construction requires every enabled model to be supplied explicitly.
    MissingTsrArtifacts,
    /// Enabled built-in OCR cannot load models implicitly in byte-artifact mode.
    MissingOcrArtifacts,
}

impl DocParseError {
    /// Human-readable reason.
    pub open spec fn text(self) -> Seq<char> {
        match self {
            DocParseError::MissingFormulaArtifacts =>
            "formula recognition requires explicit model and tokenizer artifacts"@,
            DocParseError::TwoFormulaArtifacts =>
            "select either formula or texo_formula artifacts"@,
            DocParseError::OtherFormulaArtifacts =>
            "formula artifacts do not match formula.engine.type"@,
            DocParseError::MissingConfiguration =>
            "DocParserBuilder requires validated configuration"@,
            DocParseError::MissingTsrArtifacts =>
            "table recovery requires explicit TSR model artifacts"@,
            DocParseError::MissingOcrArtifacts =>
            "OCR requires explicit detector, recognizer and enabled orientation artifacts"@,
        }
    }

    /// Human-readable reason.
    pub fn message(&self) -> (text: &'static str)
        ensures
            text@ == self.text(),
    {
        match self {
            DocParseError::MissingFormulaArtifacts =>
            "formula recognition requires explicit model and tokenizer artifacts",
            DocParseError::TwoFormulaArtifacts =>
            "select either formula or texo_formula artifacts",
            DocParseError::OtherFormulaArtifacts =>
            "formula artifacts do not match formula.engine.type",
            DocParseError::MissingConfiguration =>
            "DocParserBuilder requires validated configuration",
            DocParseError::MissingTsrArtifacts =>
            "table recovery requires explicit TSR model artifacts",
            DocParseError::MissingOcrArtifacts =>
            "OCR requires explicit detector, recognizer and enabled orientation artifacts",
        }
    }
}

/// Where an engine comes from.
#[derive(Debug, Clone, Copy, PartialEq, Eq, Structural)]
pub enum EngineSource {
    /// The caller's own engine.
    Injected,
    /// Loaded from the supplied bytes.
    Artifacts,
    /// Loaded as the configuration says.
    Configured,
}

/// Where the recognizer of formulas comes from.
#[derive(Debug, Clone, Copy, PartialEq, Eq, Structural)]
pub enum FormulaSource {
    Injected,
    Texo(EngineSource),
    Pp(EngineSource),
    Mineru,
}

/// Where each engine of a parser comes from; none where the stage is disabled.
#[derive(Debug, Clone, Copy, PartialEq, Eq, Structural)]
pub struct DocParser {
    pub layout: EngineSource,
    pub tables: Option<EngineSource>,
    pub ocr: Option<EngineSource>,
    pub formulas: Option<FormulaSource>,
    /// Whether documents are opened by the caller's provider, and not in this process.
    pub own_provider: bool,
    /// Whether outlines of undecodable glyphs are asked for their text.
    pub resolves_glyphs: bool,
}

/// Consuming builder for one reusable parser; the flags say which engines were injected.
#[derive(Debug, Clone, Copy, PartialEq, Eq, Structural)]
pub struct DocParserBuilder {
    pub artifacts: Option<ParserArtifacts>,
    pub config: Option<EngineConfig>,
    pub layout_engine: bool,
    pub ocr_engine: bool,
    pub table_engine: bool,
    pub formula_engine: bool,
    pub pdfium_provider: bool,
    pub glyph_resolver: bool,
    /// Whether this platform has a resolver for parsers that are given none.
    pub default_resolver: bool,
}

/// A loaded engine: from the supplied bytes where there are any.
pub open spec fn loaded(supplied: bool) -> EngineSource {
    if supplied {
        EngineSource::Artifacts
    } else {
        EngineSource::Configured
    }
}

/// An optional stage: the injected engine, a loaded one where the stage is enabled, or none.
pub open spec fn stage(injected: bool, enabled: bool, supplied: bool) -> Option<EngineSource> {
    if injected {
        Some(EngineSource::Injected)
    } else if enabled {
        Some(loaded(supplied))
    } else {
        None
    }
}

impl EngineConfig {
    /// Whether formulas are recognized at all.
    pub open spec fn formulas(self) -> bool {
        self.inline_formulas || self.display_formulas
    }
}

impl DocParserBuilder {
    /// Whether a local formula model has to be loaded from bytes.
    pub open spec fn needs_formula_bytes(self, config: EngineConfig) -> bool {
        &&& config.formulas()
        &&& config.formula_engine != FormulaEngineConfig::Mineru
        &&& !self.formula_engine
        &&& self.artifacts is Some
    }

    /// The first reason for which no parser can be built.
    pub open spec fn refusal(self) -> Option<DocParseError> {
        match self.config {
            None => Some(DocParseError::MissingConfiguration),
            Some(config) => {
                let bytes = self.artifacts->0;
                if self.needs_formula_bytes(config) && !bytes.formula && !bytes.texo_formula {
                    Some(DocParseError::MissingFormulaArtifacts)
                } else if self.needs_formula_bytes(config) && bytes.formula && bytes.texo_formula {
                    Some(DocParseError::TwoFormulaArtifacts)
                } else if self.needs_formula_bytes(config) && (bytes.formula != (
                config.formula_engine == FormulaEngineConfig::Pp)) {
                    Some(DocParseError::OtherFormulaArtifacts)
                } else if config.ocr && !self.ocr_engine && self.artifacts is Some && !bytes.ocr {
                    Some(DocParseError::MissingOcrArtifacts)
                } else if config.tables && !self.table_engine && self.artifacts is Some
                    && !bytes.tsr {
                    Some(DocParseError::MissingTsrArtifacts)
                } else {
                    None
                }
            },
        }
    }

    /// The recognizer of formulas.
    pub open spec fn formula_source(self, config: EngineConfig) -> Option<FormulaSource> {
        if self.formula_engine {
            Some(FormulaSource::Injected)
        } else if !config.formulas() {
            None
        } else {
            Some(
                match config.formula_engine {
                    FormulaEngineConfig::Texo => FormulaSource::Texo(
                        loaded(self.artifacts is Some && self.artifacts->0.texo_formula),
                    ),
                    FormulaEngineConfig::Pp => FormulaSource::Pp(
                        loaded(self.artifacts is Some && self.artifacts->0.formula),
                    ),
                    FormulaEngineConfig::Mineru => FormulaSource::Mineru,
                },
            )
        }
    }

    /// The engines of the parser.
    pub open spec fn parser(self, config: EngineConfig) -> DocParser {
        DocParser {
            layout: if self.layout_engine {
                EngineSource::Injected
            } else {
                loaded(self.artifacts is Some)
            },
            tables: stage(
                self.table_engine,
                config.tables,
                self.artifacts is Some && self.artifacts->0.tsr,
            ),
            ocr: stage(
                self.ocr_engine,
                config.ocr,
                self.artifacts is Some && self.artifacts->0.ocr,
            ),
            formulas: self.formula_source(config),
            own_provider: self.pdfium_provider,
            resolves_glyphs: self.glyph_resolver || self.default_resolver,
        }
    }

    /// Starts with no injected engines; `build` resolves configured defaults.
    pub fn new() -> (builder: DocParserBuilder)
        ensures
            builder == (DocParserBuilder {
                artifacts: None,
                config: None,
                layout_engine: false,
                ocr_engine: false,
                table_engine: false,
                formula_engine: false,
                pdfium_provider: false,
                glyph_resolver: false,
                default_resolver: false,
            }),
    {
        DocParserBuilder {
            artifacts: None,
            config: None,
            layout_engine: false,
            ocr_engine: false,
            table_engine: false,
            formula_engine: false,
            pdfium_provider: false,
            glyph_resolver: false,
            default_resolver: false,
        }
    }

    /// Injects a formula recognizer.
    pub fn formula_engine(self) -> (builder: DocParserBuilder)
        ensures
            builder == (DocParserBuilder { formula_engine: true, ..self }),
    {
        DocParserBuilder { formula_engine: true, ..self }
    }

    /// Opens documents with the caller's provider.
    pub fn pdfium_provider(self) -> (builder: DocParserBuilder)
        ensures
            builder == (DocParserBuilder { pdfium_provider: true, ..self }),
    {
        DocParserBuilder { pdfium_provider: true, ..self }
    }

    /// Asks the caller's resolver for glyphs that nothing else decodes.
    pub fn glyph_resolver(self) -> (builder: DocParserBuilder)
        ensures
            builder == (DocParserBuilder { glyph_resolver: true, ..self }),
    {
        DocParserBuilder { glyph_resolver: true, ..self }
    }

    /// States that this platform has a glyph resolver of its own.
    pub fn default_resolver(self) -> (builder: DocParserBuilder)
        ensures
            builder == (DocParserBuilder { default_resolver: true, ..self }),
    {
        DocParserBuilder { default_resolver: true, ..self }
    }

    /// Supplies owned bytes; enabled models never fall back to filesystem loading in this mode.
    pub fn artifacts(self, artifacts: ParserArtifacts) -> (builder: DocParserBuilder)
        ensures
            builder == (DocParserBuilder { artifacts: Some(artifacts), ..self }),
    {
        DocParserBuilder { artifacts: Some(artifacts), ..self }
    }

    /// Sets the mandatory configuration.
    pub fn config(self, config: EngineConfig) -> (builder: DocParserBuilder)
        ensures
            builder == (DocParserBuilder { config: Some(config), ..self }),
    {
        DocParserBuilder { config: Some(config), ..self }
    }

    /// Injects a layout engine and bypasses default model artifact loading.
    pub fn layout_engine(self) -> (builder: DocParserBuilder)
        ensures
            builder == (DocParserBuilder { layout_engine: true, ..self }),
    {
        DocParserBuilder { layout_engine: true, ..self }
    }

    /// Injects the optional single OCR engine used for missing regions.
    pub fn ocr_engine(self) -> (builder: DocParserBuilder)
        ensures
            builder == (DocParserBuilder { ocr_engine: true, ..self }),
    {
        DocParserBuilder { ocr_engine: true, ..self }
    }

    /// Injects a table structure engine and bypasses built-in model loading.
    pub fn table_engine(self) -> (builder: DocParserBuilder)
        ensures
            builder == (DocParserBuilder { table_engine: true, ..self }),
    {
        DocParserBuilder { table_engine: true, ..self }
    }

    /// Chooses the recognizer of formulas, preserving an injected engine and disabled recognition.
    fn load_formula_engine(&self, config: &EngineConfig) -> (source: Option<FormulaSource>)
        ensures
            source == self.formula_source(*config),
    {
        if self.formula_engine {
            return Some(FormulaSource::Injected);
        }
        if !config.inline_formulas && !config.display_formulas {
            return None;
        }
        let (pp, texo): (bool, bool) = match self.artifacts {
            None => (false, false),
            Some(artifacts) => (artifacts.formula, artifacts.texo_formula),
        };
        Some(
            match config.formula_engine {
                FormulaEngineConfig::Texo => FormulaSource::Texo(load(texo)),
                FormulaEngineConfig::Pp => FormulaSource::Pp(load(pp)),
                FormulaEngineConfig::Mineru => FormulaSource::Mineru,
            },
        )
    }

    /// Decides where each engine comes from, or why no parser can be built.
    pub fn build(self) -> (built: Result<DocParser, DocParseError>)
        ensures
            built is Err <==> self.refusal() is Some,
            built matches Err(error) ==> self.refusal() == Some(error),
            built matches Ok(parser) ==> parser == self.parser(self.config->0),
    {
        let config: EngineConfig = match self.config {
            None => {
                return Err(DocParseError::MissingConfiguration);
            },
            Some(config) => config,
        };
        let formula_enabled: bool = config.inline_formulas || config.display_formulas;
        let local_formula_enabled: bool = formula_enabled && !matches!(
            config.formula_engine,
            FormulaEngineConfig::Mineru
        );
        if let Some(artifacts) = self.artifacts {
            if local_formula_enabled && !self.formula_engine {
                if !artifacts.formula && !artifacts.texo_formula {
                    return Err(DocParseError::MissingFormulaArtifacts);
                }
                if artifacts.formula && artifacts.texo_formula {
                    return Err(DocParseError::TwoFormulaArtifacts);
                }
                let selected_present: bool = match config.formula_engine {
                    FormulaEngineConfig::Pp => artifacts.formula,
                    FormulaEngineConfig::Texo => artifacts.texo_formula,
                    FormulaEngineConfig::Mineru => true,
                };
                if !selected_present {
                    return Err(DocParseError::OtherFormulaArtifacts);
                }
            }
            if config.ocr && !self.ocr_engine && !artifacts.ocr {
                return Err(DocParseError::MissingOcrArtifacts);
            }
            if config.tables && !self.table_engine && !artifacts.tsr {
                return Err(DocParseError::MissingTsrArtifacts);
            }
        }
        let (tsr, ocr): (bool, bool) = match self.artifacts {
            None => (false, false),
            Some(artifacts) => (artifacts.tsr, artifacts.ocr),
        };
        let formulas: Option<FormulaSource> = self.load_formula_engine(&config);
        Ok(
            DocParser {
                layout: if self.layout_engine {
                    EngineSource::Injected
                } else {
                    load(self.artifacts.is_some())
                },
                tables: choose_stage(self.table_engine, config.tables, tsr),
                ocr: choose_stage(self.ocr_engine, config.ocr, ocr),
                formulas,
                own_provider: self.pdfium_provider,
                resolves_glyphs: self.glyph_resolver || self.default_resolver,
            },
        )
    }
}

/// A loaded engine: from the supplied bytes where there are any.
fn load(supplied: bool) -> (source: EngineSource)
    ensures
        source == loaded(supplied),
{
    if supplied {
        EngineSource::Artifacts
    } else {
        EngineSource::Configured
    }
}

/// An optional stage: the injected engine, a loaded one where the stage is enabled, or none.
fn choose_stage(injected: bool, enabled: bool, supplied: bool) -> (source: Option<EngineSource>)
    ensures
        source == stage(injected, enabled, supplied),
{
    if injected {
        Some(EngineSource::Injected)
    } else if enabled {
        Some(load(supplied))
    } else {
        None
    }
}

impl Default for DocParserBuilder {
    fn default() -> (builder: DocParserBuilder)
        ensures
            builder == (DocParserBuilder {
                artifacts: None,
                config: None,
                layout_engine: false,
                ocr_engine: false,
                table_engine: false,
                formula_engine: false,
                pdfium_provider: false,
                glyph_resolver: false,
                default_resolver: false,
            }),
    {
        DocParserBuilder::new()
    }
}

impl DocParser {
    /// Creates an empty builder.
    pub fn builder() -> (builder: DocParserBuilder)
        ensures
            builder == (DocParserBuilder {
                artifacts: None,
                config: None,
                layout_engine: false,
                ocr_engine: false,
                table_engine: false,
                formula_engine: false,
                pdfium_provider: false,
                glyph_resolver: false,
                default_resolver: false,
            }),
    {
        DocParserBuilder::new()
    }

    /// A parser whose engines are all loaded as the configuration says.
    pub fn from_config(config: EngineConfig, default_resolver: bool) -> (parser: DocParser)
        ensures
            parser == DocParser::configured(config, default_resolver),
    {
        let builder: DocParserBuilder = DocParserBuilder::new().config(config);
        let formulas: Option<FormulaSource> = builder.load_formula_engine(&config);
        DocParser {
            layout: EngineSource::Configured,
            tables: choose_stage(false, config.tables, false),
            ocr: choose_stage(false, config.ocr, false),
            formulas,
            own_provider: false,
            resolves_glyphs: default_resolver,
        }
    }

    /// A parser whose enabled models are all loaded from supplied bytes.
    pub fn from_artifacts(
        config: EngineConfig,
        artifacts: ParserArtifacts,
        default_resolver: bool,
    ) -> (built: Result<DocParser, DocParseError>)
        ensures
            ({
                let builder = DocParserBuilder {
                    artifacts: Some(artifacts),
                    config: Some(config),
                    layout_engine: false,
                    ocr_engine: false,
                    table_engine: false,
                    formula_engine: false,
                    pdfium_provider: false,
                    glyph_resolver: false,
                    default_resolver,
                };
                &&& built is Err <==> builder.refusal() is Some
                &&& built matches Err(error) ==> builder.refusal() == Some(error)
                &&& built matches Ok(parser) ==> parser == builder.parser(config)
            }),
    {
        let builder: DocParserBuilder = DocParserBuilder::new().config(config).artifacts(artifacts);
        if default_resolver {
            builder.default_resolver().build()
        } else {
            builder.build()
        }
    }

    /// The parser whose engines are all loaded as the configuration says.
    pub open spec fn configured(config: EngineConfig, default_resolver: bool) -> DocParser {
        DocParser {
            layout: EngineSource::Configured,
            tables: stage(false, config.tables, false),
            ocr: stage(false, config.ocr, false),
            formulas: if !config.formulas() {
                None
            } else {
                Some(
                    match config.formula_engine {
                        FormulaEngineConfig::Texo => FormulaSource::Texo(EngineSource::Configured),
                        FormulaEngineConfig::Pp => FormulaSource::Pp(EngineSource::Configured),
                        FormulaEngineConfig::Mineru => FormulaSource::Mineru,
                    },
                )
            },
            own_provider: false,
            resolves_glyphs: default_resolver,
        }
    }
}

/// An enabled model is never loaded from anywhere but the supplied bytes once bytes were supplied.
pub proof fn bytes_exclude_other_loading(builder: DocParserBuilder)
    requires
        builder.artifacts is Some,
        builder.refusal() is None,
    ensures
        ({
            let parser = builder.parser(builder.config->0);
            &&& parser.layout != EngineSource::Configured
            &&& parser.tables != Some(EngineSource::Configured)
            &&& parser.ocr != Some(EngineSource::Configured)
            &&& parser.formulas != Some(FormulaSource::Texo(EngineSource::Configured))
            &&& parser.formulas != Some(FormulaSource::Pp(EngineSource::Configured))
        }),
{
}

/// An injected engine is always the one used.
pub proof fn injected_engines_win(builder: DocParserBuilder)
    requires
        builder.config is Some,
    ensures
        ({
            let parser = builder.parser(builder.config->0);
            &&& builder.layout_engine ==> parser.layout == EngineSource::Injected
            &&& builder.table_engine ==> parser.tables == Some(EngineSource::Injected)
            &&& builder.ocr_engine ==> parser.ocr == Some(EngineSource::Injected)
            &&& builder.formula_engine ==> parser.formulas == Some(FormulaSource::Injected)
            &&& builder.pdfium_provider ==> parser.own_provider
            &&& builder.glyph_resolver ==> parser.resolves_glyphs
            &&& parser.resolves_glyphs ==> builder.glyph_resolver || builder.default_resolver
        }),
{
}

/// What an observer hears before a standalone page is analysed.
pub fn page_started() -> (progress: ParseProgress)
    ensures
        progress == (ParseProgress::Analyzing { completed: 0, total: 1 }),
{
    ParseProgress::Analyzing { completed: 0, total: 1 }
}

/// What an observer hears once a standalone page was analysed: nothing where it failed.
pub fn page_finished(succeeded: bool) -> (heard: Vec<ParseProgress>)
    ensures
        heard@ == (if succeeded {
            seq![
                ParseProgress::Analyzing { completed: 1, total: 1 },
                ParseProgress::Complete { total: 1 },
            ]
        } else {
            Seq::<ParseProgress>::empty()
        }),
{
    let mut heard: Vec<ParseProgress> = Vec::new();
    if succeeded {
        heard.push(ParseProgress::Analyzing { completed: 1, total: 1 });
        heard.push(ParseProgress::Complete { total: 1 });
    }
    heard
}

} // verus!
