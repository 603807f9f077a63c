//! Configuration model and parser.
//!
//! The configuration arrives as a generic structured document (a tree of
//! mappings, sequences and scalars, `ConfigValue`) and is converted into two
//! typed tables: the declared clips and the declared flags.  Parsing is
//! fail-fast: the first offending entry aborts the whole parse with a
//! `ConfigError` naming the offending key where one is known.

use vstd::prelude::*;

verus! {

use crate::color::{parse_color_hash_token, parse_color_token, parsed_rgb, Color};
use crate::numparse::{spec_parse_scaled, parse_scaled, MAX_SCALED, SCALE};

/// A node of the structured configuration document.
#[derive(Debug)]
pub enum ConfigValue {
    Str(String),
    Int(i64),
    /// A real scalar, kept as its literal text.
    Real(String),
    Bool(bool),
    Array(Vec<ConfigValue>),
    Hash(Vec<ConfigEntry>),
    /// Any node kind the parser has no use for (null, alias, bad value).
    Other,
}

#[derive(Debug)]
pub struct ConfigEntry {
    pub key: ConfigValue,
    pub value: ConfigValue,
}

/// Stroke line-cap keywords.
#[derive(Clone, Copy, PartialEq, Eq, Structural, Debug)]
pub enum LineCap {
    Butt,
    Round,
    Square,
    Inherit,
}

/// Stroke line-join keywords; `Stroke` is the miter-equivalent default.
#[derive(Clone, Copy, PartialEq, Eq, Structural, Debug)]
pub enum LineJoin {
    Miter,
    Round,
    Bevel,
    Inherit,
    Stroke,
}

/// Border styling of a clip; every field is optional and falls back to a
/// documented default.
#[derive(Clone, Copy, Debug)]
pub struct BorderInformation {
    pub color: Option<Color>,
    pub linecap: Option<LineCap>,
    pub linejoin: Option<LineJoin>,
    pub width: Option<i64>,
}

impl BorderInformation {
    pub open spec fn spec_color(self) -> Color {
        match self.color {
            Some(c) => c,
            None => Color { red: 0xee, green: 0xee, blue: 0xee },
        }
    }

    pub open spec fn spec_linecap(self) -> LineCap {
        match self.linecap {
            Some(l) => l,
            None => LineCap::Round,
        }
    }

    pub open spec fn spec_linejoin(self) -> LineJoin {
        match self.linejoin {
            Some(l) => l,
            None => LineJoin::Stroke,
        }
    }

    /// Resolved border width in ticks; the default is five units.
    pub open spec fn spec_width(self) -> int {
        match self.width {
            Some(w) => w as int,
            None => 5 * SCALE,
        }
    }

    /// Widths assigned by the parser always lie in the tick range.
    pub open spec fn wf(self) -> bool {
        -MAX_SCALED <= self.spec_width() <= MAX_SCALED
    }

    pub fn new(
        color: Option<Color>,
        linecap: Option<LineCap>,
        linejoin: Option<LineJoin>,
        width: Option<i64>,
    ) -> (r: BorderInformation)
        ensures
            r == (BorderInformation { color, linecap, linejoin, width }),
    {
        BorderInformation { color, linecap, linejoin, width }
    }

    /// Resolved border color; light gray when none was declared.
    pub fn color(&self) -> (r: Color)
        ensures
            r == self.spec_color(),
    {
        match self.color {
            Some(c) => c,
            None => Color { red: 0xee, green: 0xee, blue: 0xee },
        }
    }

    pub fn linecap(&self) -> (r: LineCap)
        ensures
            r == self.spec_linecap(),
    {
        match self.linecap {
            Some(l) => l,
            None => LineCap::Round,
        }
    }

    pub fn linejoin(&self) -> (r: LineJoin)
        ensures
            r == self.spec_linejoin(),
    {
        match self.linejoin {
            Some(l) => l,
            None => LineJoin::Stroke,
        }
    }

    pub fn width(&self) -> (r: i64)
        requires
            self.wf(),
        ensures
            r == self.spec_width(),
    {
        match self.width {
            Some(w) => w,
            None => 5 * SCALE,
        }
    }
}

/// One declared clip: its name, the reference to its source shape document,
/// and its border styling.
#[derive(Debug)]
pub struct ClipInformation {
    pub name: String,
    pub filename: String,
    pub border: BorderInformation,
}

#[verifier::ext_equal]
pub ghost struct ClipInformationV {
    pub name: Seq<char>,
    pub filename: Seq<char>,
    pub border: BorderInformation,
}

impl View for ClipInformation {
    type V = ClipInformationV;

    open spec fn view(&self) -> ClipInformationV {
        ClipInformationV { name: self.name@, filename: self.filename@, border: self.border }
    }
}

/// An ordered palette: (color, weight-in-ticks) pairs, top band first.
pub type FlagColors = Vec<(Color, i64)>;

/// One declared flag: its name and its palette.
#[derive(Debug)]
pub struct Flag {
    pub name: String,
    pub colors: FlagColors,
}

#[verifier::ext_equal]
pub ghost struct FlagV {
    pub name: Seq<char>,
    pub colors: Seq<(Color, i64)>,
}

impl View for Flag {
    type V = FlagV;

    open spec fn view(&self) -> FlagV {
        FlagV { name: self.name@, colors: self.colors@ }
    }
}

/// The clip table, in declared order, names unique.
pub type ClipMap = Vec<ClipInformation>;

/// The flag table, in declared order, names unique.
pub type FlagMap = Vec<Flag>;

/// Configuration-semantic failures, each carrying the offending key where
/// one is known.
#[derive(Debug)]
pub enum ConfigError {
    /// The document root is not a mapping.
    NotAMapping,
    /// The reserved clips key is absent.
    ClipsMissing,
    /// The reserved clips key does not hold a mapping.
    ClipsNotAMapping,
    /// A clip name is not a string.
    ClipNameNotString,
    /// A clip definition is neither a string nor a mapping.
    InvalidClipDefinition(String),
    /// A clip definition mapping has no `src` entry.
    MissingSrc(String),
    /// A value that must be a string is not one.
    ValueNotString,
    /// A line-cap or line-join value outside its closed enumeration.
    InvalidKeyword,
    /// An unparseable color token.
    InvalidColor,
    /// A numeric string that does not parse as a number in range.
    InvalidNumber,
    /// A number was needed but the node has no numeric kind.
    InvalidNumberValue,
    /// An item of a flag definition is not a color token.
    InvalidFlagItem,
    /// A flag definition is neither a sequence nor a mapping.
    InvalidFlagDefinition,
}

#[verifier::ext_equal]
pub ghost enum ConfigErrorV {
    NotAMapping,
    ClipsMissing,
    ClipsNotAMapping,
    ClipNameNotString,
    InvalidClipDefinition(Seq<char>),
    MissingSrc(Seq<char>),
    ValueNotString,
    InvalidKeyword,
    InvalidColor,
    InvalidNumber,
    InvalidNumberValue,
    InvalidFlagItem,
    InvalidFlagDefinition,
}

impl View for ConfigError {
    type V = ConfigErrorV;

    open spec fn view(&self) -> ConfigErrorV {
        match self {
            ConfigError::NotAMapping => ConfigErrorV::NotAMapping,
            ConfigError::ClipsMissing => ConfigErrorV::ClipsMissing,
            ConfigError::ClipsNotAMapping => ConfigErrorV::ClipsNotAMapping,
            ConfigError::ClipNameNotString => ConfigErrorV::ClipNameNotString,
            ConfigError::InvalidClipDefinition(s) => ConfigErrorV::InvalidClipDefinition(s@),
            ConfigError::MissingSrc(s) => ConfigErrorV::MissingSrc(s@),
            ConfigError::ValueNotString => ConfigErrorV::ValueNotString,
            ConfigError::InvalidKeyword => ConfigErrorV::InvalidKeyword,
            ConfigError::InvalidColor => ConfigErrorV::InvalidColor,
            ConfigError::InvalidNumber => ConfigErrorV::InvalidNumber,
            ConfigError::InvalidNumberValue => ConfigErrorV::InvalidNumberValue,
            ConfigError::InvalidFlagItem => ConfigErrorV::InvalidFlagItem,
            ConfigError::InvalidFlagDefinition => ConfigErrorV::InvalidFlagDefinition,
        }
    }
}

/// The abstract clip table a `ClipMap` stands for.
pub open spec fn clips_view(m: ClipMap) -> Seq<ClipInformationV> {
    Seq::new(m@.len(), |i: int| m@[i]@)
}

/// The abstract flag table a `FlagMap` stands for.
pub open spec fn flags_view(m: FlagMap) -> Seq<FlagV> {
    Seq::new(m@.len(), |i: int| m@[i]@)
}

pub open spec fn entry_key_is(e: ConfigEntry, key: Seq<char>) -> bool {
    e.key matches ConfigValue::Str(s) && s@ == key
}

/// The value under the first entry whose key is the given string.
pub open spec fn spec_lookup(entries: Seq<ConfigEntry>, key: Seq<char>) -> Option<ConfigValue>
    decreases entries.len(),
{
    if entries.len() == 0 {
        None
    } else if entry_key_is(entries[0], key) {
        Some(entries[0].value)
    } else {
        spec_lookup(entries.drop_first(), key)
    }
}

/// A string entry: absent keys are no error, a non-string value is.
pub open spec fn spec_get_str(entries: Seq<ConfigEntry>, key: Seq<char>) -> Result<
    Option<Seq<char>>,
    ConfigErrorV,
> {
    match spec_lookup(entries, key) {
        None => Ok(None),
        Some(v) => match v {
            ConfigValue::Str(s) => Ok(Some(s@)),
            _ => Err(ConfigErrorV::ValueNotString),
        },
    }
}

pub open spec fn hash_prepended(s: Seq<char>) -> Seq<char> {
    seq!['#'].add(s)
}

/// What a color token parses to: as written first; if that fails, with a
/// leading `'#'` synthesized.
pub open spec fn spec_yaml_to_color(s: Seq<char>) -> Result<Color, ConfigErrorV> {
    match parsed_rgb(s) {
        Some(t) => Ok(Color { red: t.0, green: t.1, blue: t.2 }),
        None => match parsed_rgb(hash_prepended(s)) {
            Some(t) => Ok(Color { red: t.0, green: t.1, blue: t.2 }),
            None => Err(ConfigErrorV::InvalidColor),
        },
    }
}

pub open spec fn spec_weight_str(s: Seq<char>) -> Result<i64, ConfigErrorV> {
    match spec_parse_scaled(s) {
        Some(x) => Ok(x as i64),
        None => Err(ConfigErrorV::InvalidNumber),
    }
}

/// Numeric coercion: strings and reals parse as decimal literals, integers
/// and booleans widen, anything else is no number.
pub open spec fn spec_weight(v: ConfigValue) -> Result<i64, ConfigErrorV> {
    match v {
        ConfigValue::Str(s) => spec_weight_str(s@),
        ConfigValue::Real(s) => spec_weight_str(s@),
        ConfigValue::Int(i) => if -1_000_000 <= i <= 1_000_000 {
            Ok(((i as int) * (SCALE as int)) as i64)
        } else {
            Err(ConfigErrorV::InvalidNumber)
        },
        ConfigValue::Bool(b) => Ok(
            if b {
                SCALE
            } else {
                0i64
            },
        ),
        _ => Err(ConfigErrorV::InvalidNumberValue),
    }
}

pub open spec fn spec_linecap_of(s: Seq<char>) -> Option<LineCap> {
    if s == "butt"@ {
        Some(LineCap::Butt)
    } else if s == "round"@ {
        Some(LineCap::Round)
    } else if s == "square"@ {
        Some(LineCap::Square)
    } else if s == "inherit"@ {
        Some(LineCap::Inherit)
    } else {
        None
    }
}

pub open spec fn spec_linejoin_of(s: Seq<char>) -> Option<LineJoin> {
    if s == "miter"@ {
        Some(LineJoin::Miter)
    } else if s == "round"@ {
        Some(LineJoin::Round)
    } else if s == "bevel"@ {
        Some(LineJoin::Bevel)
    } else if s == "inherit"@ {
        Some(LineJoin::Inherit)
    } else {
        None
    }
}

pub open spec fn spec_clip_color(entries: Seq<ConfigEntry>) -> Result<Option<Color>, ConfigErrorV> {
    match spec_get_str(entries, "color"@) {
        Err(e) => Err(e),
        Ok(None) => Ok(None),
        Ok(Some(cs)) => match spec_yaml_to_color(cs) {
            Ok(c) => Ok(Some(c)),
            Err(e) => Err(e),
        },
    }
}

pub open spec fn spec_clip_linecap(entries: Seq<ConfigEntry>) -> Result<
    Option<LineCap>,
    ConfigErrorV,
> {
    match spec_get_str(entries, "linecap"@) {
        Err(e) => Err(e),
        Ok(None) => Ok(None),
        Ok(Some(s)) => match spec_linecap_of(s) {
            Some(l) => Ok(Some(l)),
            None => Err(ConfigErrorV::InvalidKeyword),
        },
    }
}

pub open spec fn spec_clip_linejoin(entries: Seq<ConfigEntry>) -> Result<
    Option<LineJoin>,
    ConfigErrorV,
> {
    match spec_get_str(entries, "linejoin"@) {
        Err(e) => Err(e),
        Ok(None) => Ok(None),
        Ok(Some(s)) => match spec_linejoin_of(s) {
            Some(l) => Ok(Some(l)),
            None => Err(ConfigErrorV::InvalidKeyword),
        },
    }
}

pub open spec fn spec_clip_width(entries: Seq<ConfigEntry>) -> Result<Option<i64>, ConfigErrorV> {
    match spec_lookup(entries, "width"@) {
        None => Ok(None),
        Some(v) => match spec_weight(v) {
            Ok(w) => Ok(Some(w)),
            Err(e) => Err(e),
        },
    }
}

pub open spec fn spec_parse_clip_map(name: Seq<char>, entries: Seq<ConfigEntry>) -> Result<
    ClipInformationV,
    ConfigErrorV,
> {
    match spec_get_str(entries, "src"@) {
        Err(e) => Err(e),
        Ok(filename_opt) => match spec_clip_color(entries) {
            Err(e) => Err(e),
            Ok(color) => match spec_clip_linecap(entries) {
                Err(e) => Err(e),
                Ok(linecap) => match spec_clip_linejoin(entries) {
                    Err(e) => Err(e),
                    Ok(linejoin) => match spec_clip_width(entries) {
                        Err(e) => Err(e),
                        Ok(width) => match filename_opt {
                            Some(f) => Ok(
                                ClipInformationV {
                                    name,
                                    filename: f,
                                    border: BorderInformation { color, linecap, linejoin, width },
                                },
                            ),
                            None => Err(ConfigErrorV::MissingSrc(name)),
                        },
                    },
                },
            },
        },
    }
}

/// One clip definition: a bare string is a source reference with a default
/// border; a mapping carries `src` plus optional border styling.
pub open spec fn spec_parse_clip(name: Seq<char>, dfn: ConfigValue) -> Result<
    ClipInformationV,
    ConfigErrorV,
> {
    match dfn {
        ConfigValue::Str(f) => Ok(
            ClipInformationV {
                name,
                filename: f@,
                border: BorderInformation { color: None, linecap: None, linejoin: None, width: None },
            },
        ),
        ConfigValue::Hash(entries) => spec_parse_clip_map(name, entries@),
        _ => Err(ConfigErrorV::InvalidClipDefinition(name)),
    }
}

/// First index holding a clip of this name, or `-1`.
pub open spec fn clip_index_of(m: Seq<ClipInformationV>, name: Seq<char>) -> int
    decreases m.len(),
{
    if m.len() == 0 {
        -1
    } else if m[0].name == name {
        0
    } else {
        let r = clip_index_of(m.drop_first(), name);
        if r == -1 {
            -1
        } else {
            r + 1
        }
    }
}

/// Keying by name: a clip replaces an earlier one of the same name, else is
/// appended in declared order.
pub open spec fn clips_insert(m: Seq<ClipInformationV>, c: ClipInformationV) -> Seq<
    ClipInformationV,
> {
    let j = clip_index_of(m, c.name);
    if j == -1 {
        m.push(c)
    } else {
        m.update(j, c)
    }
}

pub open spec fn spec_parse_clips(entries: Seq<ConfigEntry>) -> Result<
    Seq<ClipInformationV>,
    ConfigErrorV,
>
    decreases entries.len(),
{
    if entries.len() == 0 {
        Ok(Seq::empty())
    } else {
        match spec_parse_clips(entries.drop_last()) {
            Err(e) => Err(e),
            Ok(m) => match entries.last().key {
                ConfigValue::Str(nm) => match spec_parse_clip(nm@, entries.last().value) {
                    Ok(c) => Ok(clips_insert(m, c)),
                    Err(e) => Err(e),
                },
                _ => Err(ConfigErrorV::ClipNameNotString),
            },
        }
    }
}

pub open spec fn spec_flag_colors_seq(items: Seq<ConfigValue>) -> Result<
    Seq<(Color, i64)>,
    ConfigErrorV,
>
    decreases items.len(),
{
    if items.len() == 0 {
        Ok(Seq::empty())
    } else {
        match spec_flag_colors_seq(items.drop_last()) {
            Err(e) => Err(e),
            Ok(cs) => match items.last() {
                ConfigValue::Str(s) => match spec_yaml_to_color(s@) {
                    Ok(c) => Ok(cs.push((c, SCALE))),
                    Err(e) => Err(e),
                },
                _ => Err(ConfigErrorV::InvalidFlagItem),
            },
        }
    }
}

pub open spec fn spec_flag_colors_map(entries: Seq<ConfigEntry>) -> Result<
    Seq<(Color, i64)>,
    ConfigErrorV,
>
    decreases entries.len(),
{
    if entries.len() == 0 {
        Ok(Seq::empty())
    } else {
        match spec_flag_colors_map(entries.drop_last()) {
            Err(e) => Err(e),
            Ok(cs) => match entries.last().key {
                ConfigValue::Str(s) => match spec_yaml_to_color(s@) {
                    Ok(c) => match spec_weight(entries.last().value) {
                        Ok(w) => Ok(cs.push((c, w))),
                        Err(e) => Err(e),
                    },
                    Err(e) => Err(e),
                },
                _ => Err(ConfigErrorV::InvalidFlagItem),
            },
        }
    }
}

/// A flag definition: a sequence of color tokens (uniform weight of one
/// unit each) or a mapping of color token to weight, order preserved.
pub open spec fn spec_flag_colors(v: ConfigValue) -> Result<Seq<(Color, i64)>, ConfigErrorV> {
    match v {
        ConfigValue::Array(items) => spec_flag_colors_seq(items@),
        ConfigValue::Hash(entries) => spec_flag_colors_map(entries@),
        _ => Err(ConfigErrorV::InvalidFlagDefinition),
    }
}

pub open spec fn flag_index_of(m: Seq<FlagV>, name: Seq<char>) -> int
    decreases m.len(),
{
    if m.len() == 0 {
        -1
    } else if m[0].name == name {
        0
    } else {
        let r = flag_index_of(m.drop_first(), name);
        if r == -1 {
            -1
        } else {
            r + 1
        }
    }
}

pub open spec fn flags_insert(m: Seq<FlagV>, f: FlagV) -> Seq<FlagV> {
    let j = flag_index_of(m, f.name);
    if j == -1 {
        m.push(f)
    } else {
        m.update(j, f)
    }
}

/// A reserved name starts with an underscore; such keys define no flag.
pub open spec fn is_reserved_name(s: Seq<char>) -> bool {
    s.len() > 0 && s[0] == '_'
}

pub open spec fn spec_parse_flags(entries: Seq<ConfigEntry>) -> Result<Seq<FlagV>, ConfigErrorV>
    decreases entries.len(),
{
    if entries.len() == 0 {
        Ok(Seq::empty())
    } else {
        match spec_parse_flags(entries.drop_last()) {
            Err(e) => Err(e),
            Ok(m) => match entries.last().key {
                ConfigValue::Str(nm) => if is_reserved_name(nm@) {
                    Ok(m)
                } else {
                    match spec_flag_colors(entries.last().value) {
                        Ok(cs) => Ok(flags_insert(m, FlagV { name: nm@, colors: cs })),
                        Err(e) => Err(e),
                    }
                },
                _ => Ok(m),
            },
        }
    }
}

/// The whole parse: the root must be a mapping holding the reserved clips
/// mapping; every other string key declares a flag unless reserved.
pub open spec fn spec_parse_flag_yaml(doc: ConfigValue) -> Result<
    (Seq<FlagV>, Seq<ClipInformationV>),
    ConfigErrorV,
> {
    match doc {
        ConfigValue::Hash(entries) => match spec_lookup(entries@, "_clips"@) {
            Some(clips_val) => match clips_val {
                ConfigValue::Hash(clip_entries) => match spec_parse_clips(clip_entries@) {
                    Err(e) => Err(e),
                    Ok(clips) => match spec_parse_flags(entries@) {
                        Err(e) => Err(e),
                        Ok(flags) => Ok((flags, clips)),
                    },
                },
                _ => Err(ConfigErrorV::ClipsNotAMapping),
            },
            None => Err(ConfigErrorV::ClipsMissing),
        },
        _ => Err(ConfigErrorV::NotAMapping),
    }
}

/// A clip definition mapping without a `src` entry always fails.
pub proof fn lemma_missing_src_fails(name: Seq<char>, entries: Seq<ConfigEntry>)
    requires
        spec_get_str(entries, "src"@) == Ok::<Option<Seq<char>>, ConfigErrorV>(None),
    ensures
        spec_parse_clip_map(name, entries) is Err,
{
}

proof fn lemma_flag_index_in_range(m: Seq<FlagV>, name: Seq<char>)
    ensures
        -1 <= flag_index_of(m, name) < m.len(),
        flag_index_of(m, name) >= 0 ==> m[flag_index_of(m, name)].name == name,
    decreases m.len(),
{
    if m.len() > 0 && m[0].name != name {
        lemma_flag_index_in_range(m.drop_first(), name);
    }
}

/// A parsed flag table never holds a reserved (underscore-led) name.
pub proof fn lemma_no_reserved_flags(entries: Seq<ConfigEntry>)
    ensures
        spec_parse_flags(entries) matches Ok(m) ==> forall|i: int|
            0 <= i < m.len() ==> !is_reserved_name((#[trigger] m[i]).name),
    decreases entries.len(),
{
    if entries.len() > 0 {
        lemma_no_reserved_flags(entries.drop_last());
        if spec_parse_flags(entries) is Ok {
            let m = spec_parse_flags(entries)->Ok_0;
            let prev = spec_parse_flags(entries.drop_last())->Ok_0;
            match entries.last().key {
                ConfigValue::Str(nm) => {
                    if !is_reserved_name(nm@) {
                        let f = FlagV {
                            name: nm@,
                            colors: spec_flag_colors(entries.last().value)->Ok_0,
                        };
                        lemma_flag_index_in_range(prev, f.name);
                        assert(forall|i: int|
                            0 <= i < m.len() ==> !is_reserved_name((#[trigger] m[i]).name));
                    }
                },
                _ => {},
            }
        }
    }
}

/// Parsed flag tables carry each name at most once.
pub proof fn lemma_flags_unique(entries: Seq<ConfigEntry>)
    ensures
        spec_parse_flags(entries) matches Ok(m) ==> forall|i: int, j: int|
            0 <= i < j < m.len() ==> (#[trigger] m[i]).name != (#[trigger] m[j]).name,
    decreases entries.len(),
{
    if entries.len() > 0 {
        lemma_flags_unique(entries.drop_last());
        if spec_parse_flags(entries) is Ok {
            let m = spec_parse_flags(entries)->Ok_0;
            let prev = spec_parse_flags(entries.drop_last())->Ok_0;
            match entries.last().key {
                ConfigValue::Str(nm) => {
                    if !is_reserved_name(nm@) {
                        let f = FlagV {
                            name: nm@,
                            colors: spec_flag_colors(entries.last().value)->Ok_0,
                        };
                        lemma_flag_index_in_range(prev, f.name);
                        let jx = flag_index_of(prev, f.name);
                        if jx == -1 {
                            lemma_flag_index_none_converse(prev, f.name);
                            assert(m =~= prev.push(f));
                        } else {
                            assert(m =~= prev.update(jx, f));
                        }
                    }
                },
                _ => {},
            }
        }
    }
}

proof fn lemma_flag_index_none_converse(m: Seq<FlagV>, name: Seq<char>)
    requires
        flag_index_of(m, name) == -1,
    ensures
        forall|i: int| 0 <= i < m.len() ==> (#[trigger] m[i]).name != name,
    decreases m.len(),
{
    if m.len() > 0 {
        lemma_flag_index_in_range(m.drop_first(), name);
        lemma_flag_index_none_converse(m.drop_first(), name);
        assert(forall|i: int| 1 <= i < m.len() ==> m.drop_first()[i - 1] == m[i]);
    }
}

proof fn lemma_clip_index_in_range(m: Seq<ClipInformationV>, name: Seq<char>)
    ensures
        -1 <= clip_index_of(m, name) < m.len(),
        clip_index_of(m, name) >= 0 ==> m[clip_index_of(m, name)].name == name,
    decreases m.len(),
{
    if m.len() > 0 && m[0].name != name {
        lemma_clip_index_in_range(m.drop_first(), name);
    }
}

proof fn lemma_clip_index_none_converse(m: Seq<ClipInformationV>, name: Seq<char>)
    requires
        clip_index_of(m, name) == -1,
    ensures
        forall|i: int| 0 <= i < m.len() ==> (#[trigger] m[i]).name != name,
    decreases m.len(),
{
    if m.len() > 0 {
        lemma_clip_index_in_range(m.drop_first(), name);
        lemma_clip_index_none_converse(m.drop_first(), name);
        assert(forall|i: int| 1 <= i < m.len() ==> m.drop_first()[i - 1] == m[i]);
    }
}

/// Parsed clip tables carry each name at most once.
pub proof fn lemma_clips_unique(entries: Seq<ConfigEntry>)
    ensures
        spec_parse_clips(entries) matches Ok(m) ==> forall|i: int, j: int|
            0 <= i < j < m.len() ==> (#[trigger] m[i]).name != (#[trigger] m[j]).name,
    decreases entries.len(),
{
    if entries.len() > 0 {
        lemma_clips_unique(entries.drop_last());
        if spec_parse_clips(entries) is Ok {
            let m = spec_parse_clips(entries)->Ok_0;
            let prev = spec_parse_clips(entries.drop_last())->Ok_0;
            match entries.last().key {
                ConfigValue::Str(nm) => {
                    let c = spec_parse_clip(nm@, entries.last().value)->Ok_0;
                    lemma_clip_index_in_range(prev, c.name);
                    let jx = clip_index_of(prev, c.name);
                    if jx == -1 {
                        lemma_clip_index_none_converse(prev, c.name);
                        assert(m =~= prev.push(c));
                    } else {
                        assert(m =~= prev.update(jx, c));
                    }
                },
                _ => {},
            }
        }
    }
}

/// Every weight the parser accepts lies in the tick range.
pub proof fn lemma_weight_in_range(v: ConfigValue)
    ensures
        spec_weight(v) matches Ok(w) ==> -MAX_SCALED <= w <= MAX_SCALED,
{
}

/// Every border the clip parser builds resolves to a width in the tick
/// range, as the composition engine requires.
pub proof fn lemma_parsed_borders_wf(entries: Seq<ConfigEntry>)
    ensures
        spec_parse_clips(entries) matches Ok(m) ==> forall|i: int|
            0 <= i < m.len() ==> (#[trigger] m[i]).border.wf(),
    decreases entries.len(),
{
    if entries.len() > 0 {
        lemma_parsed_borders_wf(entries.drop_last());
        if spec_parse_clips(entries) is Ok {
            let m = spec_parse_clips(entries)->Ok_0;
            let prev = spec_parse_clips(entries.drop_last())->Ok_0;
            match entries.last().key {
                ConfigValue::Str(nm) => {
                    let c = spec_parse_clip(nm@, entries.last().value)->Ok_0;
                    assert(c.border.wf()) by {
                        match entries.last().value {
                            ConfigValue::Hash(clip_entries) => {
                                lemma_weight_in_range(
                                    spec_lookup(clip_entries@, "width"@)->Some_0,
                                );
                            },
                            _ => {},
                        }
                    }
                    lemma_clip_index_in_range(prev, c.name);
                },
                _ => {},
            }
        }
    }
}

/// Finds the first entry under the given key.
fn lookup<'a>(entries: &'a Vec<ConfigEntry>, key: &str) -> (r: Option<&'a ConfigValue>)
    ensures
        match r {
            Some(v) => spec_lookup(entries@, key@) == Some(*v),
            None => spec_lookup(entries@, key@) is None,
        },
{
    let key_string = key.to_owned();
    let mut i: usize = 0;
    proof {
        assert(entries@.skip(0) =~= entries@);
    }
    while i < entries.len()
        invariant
            i <= entries@.len(),
            key_string@ == key@,
            spec_lookup(entries@, key@) == spec_lookup(entries@.skip(i as int), key@),
        decreases entries@.len() - i,
    {
        proof {
            assert(entries@.skip(i as int).drop_first() =~= entries@.skip(i + 1));
            assert(entries@.skip(i as int)[0] == entries@[i as int]);
        }
        let matched = match &entries[i].key {
            ConfigValue::Str(s) => s.eq(&key_string),
            _ => false,
        };
        if matched {
            return Some(&entries[i].value);
        }
        i = i + 1;
    }
    proof {
        assert(entries@.skip(i as int) =~= Seq::<ConfigEntry>::empty());
    }
    None
}

/// Reads an optional string entry; a present non-string value is an error.
fn get_yaml_str(entries: &Vec<ConfigEntry>, key: &str) -> (r: Result<Option<String>, ConfigError>)
    ensures
        spec_get_str(entries@, key@) == match r {
            Ok(Some(s)) => Ok::<Option<Seq<char>>, ConfigErrorV>(Some(s@)),
            Ok(None) => Ok::<Option<Seq<char>>, ConfigErrorV>(None),
            Err(e) => Err::<Option<Seq<char>>, ConfigErrorV>(e@),
        },
{
    match lookup(entries, key) {
        None => Ok(None),
        Some(v) => match v {
            ConfigValue::Str(s) => Ok(Some(s.clone())),
            _ => Err(ConfigError::ValueNotString),
        },
    }
}

/// Parses a color token, synthesizing a leading `'#'` if the first attempt
/// fails.
pub fn yaml_to_color(color_name: &str) -> (r: Result<Color, ConfigError>)
    ensures
        spec_yaml_to_color(color_name@) == match r {
            Ok(c) => Ok::<Color, ConfigErrorV>(c),
            Err(e) => Err::<Color, ConfigErrorV>(e@),
        },
{
    match parse_color_token(color_name) {
        Some(c) => Ok(c),
        None => match parse_color_hash_token(color_name) {
            Some(c) => Ok(c),
            None => Err(ConfigError::InvalidColor),
        },
    }
}

/// Coerces a scalar to a weight in ticks.
pub fn yaml_weight(v: &ConfigValue) -> (r: Result<i64, ConfigError>)
    ensures
        spec_weight(*v) == match r {
            Ok(w) => Ok::<i64, ConfigErrorV>(w),
            Err(e) => Err::<i64, ConfigErrorV>(e@),
        },
{
    match v {
        ConfigValue::Str(s) => match parse_scaled(s.as_str()) {
            Some(w) => Ok(w),
            None => Err(ConfigError::InvalidNumber),
        },
        ConfigValue::Real(s) => match parse_scaled(s.as_str()) {
            Some(w) => Ok(w),
            None => Err(ConfigError::InvalidNumber),
        },
        ConfigValue::Int(i) => if -1_000_000 <= *i && *i <= 1_000_000 {
            Ok(*i * SCALE)
        } else {
            Err(ConfigError::InvalidNumber)
        },
        ConfigValue::Bool(b) => Ok(
            if *b {
                SCALE
            } else {
                0
            },
        ),
        _ => Err(ConfigError::InvalidNumberValue),
    }
}

fn linecap_of(s: &String) -> (r: Option<LineCap>)
    ensures
        r == spec_linecap_of(s@),
{
    if s.eq(&"butt".to_owned()) {
        Some(LineCap::Butt)
    } else if s.eq(&"round".to_owned()) {
        Some(LineCap::Round)
    } else if s.eq(&"square".to_owned()) {
        Some(LineCap::Square)
    } else if s.eq(&"inherit".to_owned()) {
        Some(LineCap::Inherit)
    } else {
        None
    }
}

fn linejoin_of(s: &String) -> (r: Option<LineJoin>)
    ensures
        r == spec_linejoin_of(s@),
{
    if s.eq(&"miter".to_owned()) {
        Some(LineJoin::Miter)
    } else if s.eq(&"round".to_owned()) {
        Some(LineJoin::Round)
    } else if s.eq(&"bevel".to_owned()) {
        Some(LineJoin::Bevel)
    } else if s.eq(&"inherit".to_owned()) {
        Some(LineJoin::Inherit)
    } else {
        None
    }
}

/// Parses one clip definition.
fn parse_clip(name: &String, dfn: &ConfigValue) -> (r: Result<ClipInformation, ConfigError>)
    ensures
        spec_parse_clip(name@, *dfn) == match r {
            Ok(c) => Ok::<ClipInformationV, ConfigErrorV>(c@),
            Err(e) => Err::<ClipInformationV, ConfigErrorV>(e@),
        },
{
    match dfn {
        ConfigValue::Str(f) => Ok(
            ClipInformation {
                name: name.clone(),
                filename: f.clone(),
                border: BorderInformation { color: None, linecap: None, linejoin: None, width: None },
            },
        ),
        ConfigValue::Hash(entries) => {
            let filename_opt = match get_yaml_str(entries, "src") {
                Ok(f) => f,
                Err(e) => {
                    return Err(e);
                },
            };
            let color = match get_yaml_str(entries, "color") {
                Ok(None) => None,
                Ok(Some(cs)) => match yaml_to_color(cs.as_str()) {
                    Ok(c) => Some(c),
                    Err(e) => {
                        return Err(e);
                    },
                },
                Err(e) => {
                    return Err(e);
                },
            };
            let linecap = match get_yaml_str(entries, "linecap") {
                Ok(None) => None,
                Ok(Some(s)) => match linecap_of(&s) {
                    Some(l) => Some(l),
                    None => {
                        return Err(ConfigError::InvalidKeyword);
                    },
                },
                Err(e) => {
                    return Err(e);
                },
            };
            let linejoin = match get_yaml_str(entries, "linejoin") {
                Ok(None) => None,
                Ok(Some(s)) => match linejoin_of(&s) {
                    Some(l) => Some(l),
                    None => {
                        return Err(ConfigError::InvalidKeyword);
                    },
                },
                Err(e) => {
                    return Err(e);
                },
            };
            let width = match lookup(entries, "width") {
                None => None,
                Some(v) => match yaml_weight(v) {
                    Ok(w) => Some(w),
                    Err(e) => {
                        return Err(e);
                    },
                },
            };
            match filename_opt {
                Some(f) => Ok(
                    ClipInformation {
                        name: name.clone(),
                        filename: f,
                        border: BorderInformation { color, linecap, linejoin, width },
                    },
                ),
                None => Err(ConfigError::MissingSrc(name.clone())),
            }
        },
        _ => Err(ConfigError::InvalidClipDefinition(name.clone())),
    }
}

proof fn lemma_clip_index_found(m: Seq<ClipInformationV>, name: Seq<char>, j: int)
    requires
        0 <= j < m.len(),
        m[j].name == name,
        forall|jj: int| 0 <= jj < j ==> m[jj].name != name,
    ensures
        clip_index_of(m, name) == j,
    decreases j,
{
    if j > 0 {
        lemma_clip_index_found(m.drop_first(), name, j - 1);
    }
}

proof fn lemma_clip_index_none(m: Seq<ClipInformationV>, name: Seq<char>)
    requires
        forall|jj: int| 0 <= jj < m.len() ==> m[jj].name != name,
    ensures
        clip_index_of(m, name) == -1,
    decreases m.len(),
{
    if m.len() > 0 {
        lemma_clip_index_none(m.drop_first(), name);
    }
}

/// Inserts a clip, replacing an earlier clip of the same name.
#[verifier::loop_isolation(false)]
fn clips_insert_exec(m: &mut ClipMap, c: ClipInformation)
    ensures
        clips_view(*final(m)) == clips_insert(clips_view(*old(m)), c@),
{
    let ghost mv = clips_view(*m);
    let mut j: usize = 0;
    while j < m.len()
        invariant
            j <= m@.len(),
            *m == *old(m),
            forall|jj: int| 0 <= jj < j ==> mv[jj].name != c@.name,
        decreases m@.len() - j,
    {
        if m[j].name.eq(&c.name) {
            proof {
                lemma_clip_index_found(mv, c@.name, j as int);
            }
            m.set(j, c);
            proof {
                assert(clips_view(*m) =~= mv.update(j as int, c@));
            }
            return;
        }
        j = j + 1;
    }
    proof {
        lemma_clip_index_none(mv, c@.name);
    }
    m.push(c);
    proof {
        assert(clips_view(*m) =~= mv.push(c@));
    }
}

/// Parses the first `n` clip entries.
fn parse_clips_upto(entries: &Vec<ConfigEntry>, n: usize) -> (r: Result<ClipMap, ConfigError>)
    requires
        n <= entries@.len(),
    ensures
        spec_parse_clips(entries@.take(n as int)) == match r {
            Ok(m) => Ok::<Seq<ClipInformationV>, ConfigErrorV>(clips_view(m)),
            Err(e) => Err::<Seq<ClipInformationV>, ConfigErrorV>(e@),
        },
    decreases n,
{
    if n == 0 {
        let m: ClipMap = Vec::new();
        proof {
            assert(entries@.take(0) =~= Seq::<ConfigEntry>::empty());
            assert(clips_view(m) =~= Seq::<ClipInformationV>::empty());
        }
        Ok(m)
    } else {
        let mut m = match parse_clips_upto(entries, n - 1) {
            Ok(m) => m,
            Err(e) => {
                proof {
                    assert(entries@.take(n as int).drop_last() =~= entries@.take(n - 1));
                }
                return Err(e);
            },
        };
        proof {
            assert(entries@.take(n as int).drop_last() =~= entries@.take(n - 1));
            assert(entries@.take(n as int).last() == entries@[n - 1]);
        }
        let e = &entries[n - 1];
        match &e.key {
            ConfigValue::Str(nm) => match parse_clip(nm, &e.value) {
                Ok(c) => {
                    clips_insert_exec(&mut m, c);
                    Ok(m)
                },
                Err(err) => Err(err),
            },
            _ => Err(ConfigError::ClipNameNotString),
        }
    }
}

/// Parses the first `n` items of a sequence-form flag definition.
fn parse_colors_seq_upto(items: &Vec<ConfigValue>, n: usize) -> (r: Result<
    FlagColors,
    ConfigError,
>)
    requires
        n <= items@.len(),
    ensures
        spec_flag_colors_seq(items@.take(n as int)) == match r {
            Ok(cs) => Ok::<Seq<(Color, i64)>, ConfigErrorV>(cs@),
            Err(e) => Err::<Seq<(Color, i64)>, ConfigErrorV>(e@),
        },
    decreases n,
{
    if n == 0 {
        let cs: FlagColors = Vec::new();
        proof {
            assert(items@.take(0) =~= Seq::<ConfigValue>::empty());
            assert(cs@ =~= Seq::<(Color, i64)>::empty());
        }
        Ok(cs)
    } else {
        let mut cs = match parse_colors_seq_upto(items, n - 1) {
            Ok(cs) => cs,
            Err(e) => {
                proof {
                    assert(items@.take(n as int).drop_last() =~= items@.take(n - 1));
                }
                return Err(e);
            },
        };
        proof {
            assert(items@.take(n as int).drop_last() =~= items@.take(n - 1));
            assert(items@.take(n as int).last() == items@[n - 1]);
        }
        match &items[n - 1] {
            ConfigValue::Str(s) => match yaml_to_color(s.as_str()) {
                Ok(c) => {
                    cs.push((c, SCALE));
                    Ok(cs)
                },
                Err(e) => Err(e),
            },
            _ => Err(ConfigError::InvalidFlagItem),
        }
    }
}

/// Parses the first `n` entries of a mapping-form flag definition.
fn parse_colors_map_upto(entries: &Vec<ConfigEntry>, n: usize) -> (r: Result<
    FlagColors,
    ConfigError,
>)
    requires
        n <= entries@.len(),
    ensures
        spec_flag_colors_map(entries@.take(n as int)) == match r {
            Ok(cs) => Ok::<Seq<(Color, i64)>, ConfigErrorV>(cs@),
            Err(e) => Err::<Seq<(Color, i64)>, ConfigErrorV>(e@),
        },
    decreases n,
{
    if n == 0 {
        let cs: FlagColors = Vec::new();
        proof {
            assert(entries@.take(0) =~= Seq::<ConfigEntry>::empty());
            assert(cs@ =~= Seq::<(Color, i64)>::empty());
        }
        Ok(cs)
    } else {
        let mut cs = match parse_colors_map_upto(entries, n - 1) {
            Ok(cs) => cs,
            Err(e) => {
                proof {
                    assert(entries@.take(n as int).drop_last() =~= entries@.take(n - 1));
                }
                return Err(e);
            },
        };
        proof {
            assert(entries@.take(n as int).drop_last() =~= entries@.take(n - 1));
            assert(entries@.take(n as int).last() == entries@[n - 1]);
        }
        let e = &entries[n - 1];
        match &e.key {
            ConfigValue::Str(s) => match yaml_to_color(s.as_str()) {
                Ok(c) => match yaml_weight(&e.value) {
                    Ok(w) => {
                        cs.push((c, w));
                        Ok(cs)
                    },
                    Err(err) => Err(err),
                },
                Err(err) => Err(err),
            },
            _ => Err(ConfigError::InvalidFlagItem),
        }
    }
}

/// Parses one flag definition into its ordered palette.
fn parse_flag_colors(v: &ConfigValue) -> (r: Result<FlagColors, ConfigError>)
    ensures
        spec_flag_colors(*v) == match r {
            Ok(cs) => Ok::<Seq<(Color, i64)>, ConfigErrorV>(cs@),
            Err(e) => Err::<Seq<(Color, i64)>, ConfigErrorV>(e@),
        },
{
    match v {
        ConfigValue::Array(items) => {
            let r = parse_colors_seq_upto(items, items.len());
            proof {
                assert(items@.take(items@.len() as int) =~= items@);
            }
            r
        },
        ConfigValue::Hash(entries) => {
            let r = parse_colors_map_upto(entries, entries.len());
            proof {
                assert(entries@.take(entries@.len() as int) =~= entries@);
            }
            r
        },
        _ => Err(ConfigError::InvalidFlagDefinition),
    }
}

proof fn lemma_flag_index_found(m: Seq<FlagV>, name: Seq<char>, j: int)
    requires
        0 <= j < m.len(),
        m[j].name == name,
        forall|jj: int| 0 <= jj < j ==> m[jj].name != name,
    ensures
        flag_index_of(m, name) == j,
    decreases j,
{
    if j > 0 {
        lemma_flag_index_found(m.drop_first(), name, j - 1);
    }
}

proof fn lemma_flag_index_none(m: Seq<FlagV>, name: Seq<char>)
    requires
        forall|jj: int| 0 <= jj < m.len() ==> m[jj].name != name,
    ensures
        flag_index_of(m, name) == -1,
    decreases m.len(),
{
    if m.len() > 0 {
        lemma_flag_index_none(m.drop_first(), name);
    }
}

/// Inserts a flag, replacing an earlier flag of the same name.
#[verifier::loop_isolation(false)]
fn flags_insert_exec(m: &mut FlagMap, f: Flag)
    ensures
        flags_view(*final(m)) == flags_insert(flags_view(*old(m)), f@),
{
    let ghost mv = flags_view(*m);
    let ghost fv = f@;
    let mut j: usize = 0;
    while j < m.len()
        invariant
            j <= m@.len(),
            *m == *old(m),
            forall|jj: int| 0 <= jj < j ==> mv[jj].name != fv.name,
        decreases m@.len() - j,
    {
        if m[j].name.eq(&f.name) {
            proof {
                lemma_flag_index_found(mv, fv.name, j as int);
            }
            m.set(j, f);
            proof {
                assert(flags_view(*m) =~= mv.update(j as int, fv));
            }
            return;
        }
        j = j + 1;
    }
    proof {
        lemma_flag_index_none(mv, fv.name);
    }
    m.push(f);
    proof {
        assert(flags_view(*m) =~= mv.push(fv));
    }
}

/// True when the flag name is reserved (starts with an underscore).
fn name_is_reserved(s: &String) -> (r: bool)
    ensures
        r == is_reserved_name(s@),
{
    let st = s.as_str();
    let n = st.unicode_len();
    if n == 0 {
        false
    } else {
        st.get_char(0) == '_'
    }
}

/// Parses the first `n` top-level entries as flag definitions.
fn parse_flags_upto(entries: &Vec<ConfigEntry>, n: usize) -> (r: Result<FlagMap, ConfigError>)
    requires
        n <= entries@.len(),
    ensures
        spec_parse_flags(entries@.take(n as int)) == match r {
            Ok(m) => Ok::<Seq<FlagV>, ConfigErrorV>(flags_view(m)),
            Err(e) => Err::<Seq<FlagV>, ConfigErrorV>(e@),
        },
    decreases n,
{
    if n == 0 {
        let m: FlagMap = Vec::new();
        proof {
            assert(entries@.take(0) =~= Seq::<ConfigEntry>::empty());
            assert(flags_view(m) =~= Seq::<FlagV>::empty());
        }
        Ok(m)
    } else {
        let mut m = match parse_flags_upto(entries, n - 1) {
            Ok(m) => m,
            Err(e) => {
                proof {
                    assert(entries@.take(n as int).drop_last() =~= entries@.take(n - 1));
                }
                return Err(e);
            },
        };
        proof {
            assert(entries@.take(n as int).drop_last() =~= entries@.take(n - 1));
            assert(entries@.take(n as int).last() == entries@[n - 1]);
        }
        let e = &entries[n - 1];
        match &e.key {
            ConfigValue::Str(nm) => {
                if name_is_reserved(nm) {
                    Ok(m)
                } else {
                    match parse_flag_colors(&e.value) {
                        Ok(cs) => {
                            flags_insert_exec(&mut m, Flag { name: nm.clone(), colors: cs });
                            Ok(m)
                        },
                        Err(err) => Err(err),
                    }
                }
            },
            _ => Ok(m),
        }
    }
}

/// Parses the whole configuration document into the flag and clip tables.
pub fn parse_flag_yaml(doc: &ConfigValue) -> (r: Result<(FlagMap, ClipMap), ConfigError>)
    ensures
        spec_parse_flag_yaml(*doc) == match r {
            Ok(t) => Ok::<(Seq<FlagV>, Seq<ClipInformationV>), ConfigErrorV>(
                (flags_view(t.0), clips_view(t.1)),
            ),
            Err(e) => Err::<(Seq<FlagV>, Seq<ClipInformationV>), ConfigErrorV>(e@),
        },
{
    match doc {
        ConfigValue::Hash(entries) => match lookup(entries, "_clips") {
            Some(clips_val) => match clips_val {
                ConfigValue::Hash(clip_entries) => {
                    let clips = match parse_clips_upto(clip_entries, clip_entries.len()) {
                        Ok(c) => c,
                        Err(e) => {
                            proof {
                                assert(clip_entries@.take(clip_entries@.len() as int)
                                    =~= clip_entries@);
                            }
                            return Err(e);
                        },
                    };
                    proof {
                        assert(clip_entries@.take(clip_entries@.len() as int) =~= clip_entries@);
                    }
                    let flags = match parse_flags_upto(entries, entries.len()) {
                        Ok(f) => f,
                        Err(e) => {
                            proof {
                                assert(entries@.take(entries@.len() as int) =~= entries@);
                            }
                            return Err(e);
                        },
                    };
                    proof {
                        assert(entries@.take(entries@.len() as int) =~= entries@);
                    }
                    Ok((flags, clips))
                },
                _ => Err(ConfigError::ClipsNotAMapping),
            },
            None => Err(ConfigError::ClipsMissing),
        },
        _ => Err(ConfigError::NotAMapping),
    }
}

} // verus!

