//! The environment layer: `VERIDEX_*` variables merged onto a parsed config.
//!
//! The precedence is built-in defaults, then the config file, then the environment, then explicit
//! flags. The environment is the layer a container or a CI job can set without writing a file, so
//! every `veridex.toml` key has exactly one `VERIDEX_` twin — a partial mapping would mean a setting
//! that looks configured and is not.

use vstd::prelude::*;
use vstd::string::*;

use crate::assoc;
use crate::assoc::Entry;
use crate::cat::{cat2, cat4, cat5, cat6};
use crate::check::{Category, Severity};
use crate::config;
use crate::config::{CheckConfig, CheckConfigView, ConfigError, FailOn, TolerancesConfig};
use crate::seqs;
use crate::seqs::put_text;
use crate::split;
use crate::split::{find_char, is_empty, list};
use crate::text;
use crate::text::{among, chars_of, join, lower, parse_u64, same, text_of, trim};

verus! {

broadcast use text::lemma_texts_push;

/// The `veridex.toml` key each variable sets, paired with the variable name.
///
/// `VERIDEX_CONFIG` and `VERIDEX_PROFILE` are not in this table: they select *which* config file and
/// *which* profile, rather than setting a value inside one.
pub const VARIABLES: [(&'static str, &'static str); 6] = [
    ("VERIDEX_FAIL_ON", "fail_on"),
    ("VERIDEX_MIN_SCORE", "min_score"),
    ("VERIDEX_CATEGORIES", "categories"),
    ("VERIDEX_ONLY_CHECKS", "only_checks"),
    ("VERIDEX_DISABLED_CHECKS", "disabled_checks"),
    ("VERIDEX_SEVERITY_OVERRIDES", "severity_overrides"),
];

/// The tolerance keys, each settable as `VERIDEX_TOLERANCE_<KEY>` (upper-cased).
pub const TOLERANCE_KEYS: [&'static str; 14] = [
    "clock_skew_ms",
    "start_offset_ms",
    "end_offset_ms",
    "rate_deviation",
    "gap_factor",
    "jitter_cv",
    "episode_duration_factor",
    "saturation_fraction",
    "saturation_min_samples",
    "outlier_z",
    "sequence_drop_fraction",
    "ego_max_speed_mps",
    "near_duplicate_fraction",
    "sensor_clock_offset_ms",
];

/// What a variable of the environment holds.
#[derive(Debug)]
pub struct Given {
    /// The text.
    pub text: String,
    /// The text without the white space around it, read as a double; nothing where it is not one.
    pub number: Option<u64>,
}

// ---- values ----------------------------------------------------------------------------------

/// The category of a tag.
pub open spec fn category_of(s: Seq<char>) -> Option<Category> {
    if s == Category::Structure.spec_tag() {
        Some(Category::Structure)
    } else if s == Category::Temporal.spec_tag() {
        Some(Category::Temporal)
    } else if s == Category::Statistical.spec_tag() {
        Some(Category::Statistical)
    } else if s == Category::Semantic.spec_tag() {
        Some(Category::Semantic)
    } else if s == Category::Video.spec_tag() {
        Some(Category::Video)
    } else if s == Category::Provenance.spec_tag() {
        Some(Category::Provenance)
    } else if s == Category::Autonomy.spec_tag() {
        Some(Category::Autonomy)
    } else {
        None
    }
}

/// The category of a tag.
fn parse_category(s: &str) -> (r: Option<Category>)
    ensures
        r == category_of(s@),
{
    if same(s, Category::Structure.tag()) {
        Some(Category::Structure)
    } else if same(s, Category::Temporal.tag()) {
        Some(Category::Temporal)
    } else if same(s, Category::Statistical.tag()) {
        Some(Category::Statistical)
    } else if same(s, Category::Semantic.tag()) {
        Some(Category::Semantic)
    } else if same(s, Category::Video.tag()) {
        Some(Category::Video)
    } else if same(s, Category::Provenance.tag()) {
        Some(Category::Provenance)
    } else if same(s, Category::Autonomy.tag()) {
        Some(Category::Autonomy)
    } else {
        None
    }
}

/// The severity of a tag.
pub open spec fn severity_of(s: Seq<char>) -> Option<Severity> {
    if s == Severity::Info.spec_tag() {
        Some(Severity::Info)
    } else if s == Severity::Warning.spec_tag() {
        Some(Severity::Warning)
    } else if s == Severity::Error.spec_tag() {
        Some(Severity::Error)
    } else {
        None
    }
}

/// The severity of a tag.
fn parse_severity(s: &str) -> (r: Option<Severity>)
    ensures
        r == severity_of(s@),
{
    if same(s, Severity::Info.tag()) {
        Some(Severity::Info)
    } else if same(s, Severity::Warning.tag()) {
        Some(Severity::Warning)
    } else if same(s, Severity::Error.tag()) {
        Some(Severity::Error)
    } else {
        None
    }
}

/// The categories that tags name, or what is wrong with them.
pub open spec fn categories_of(name: Seq<char>, s: Seq<Seq<char>>) -> Result<Seq<Category>, Seq<char>>
    decreases s.len(),
{
    if s.len() == 0 {
        Ok(Seq::empty())
    } else {
        match categories_of(name, s.drop_last()) {
            Err(m) => Err(m),
            Ok(rest) => match category_of(s.last()) {
                Some(c) => Ok(rest.push(c)),
                None => Err(
                    name + ": unknown category `"@ + s.last()
                        + "` (known: structural, temporal, statistical, semantic, video, provenance, autonomy)"@,
                ),
            },
        }
    }
}

/// An override that an entry names, or what is wrong with it.
pub open spec fn override_of(name: Seq<char>, item: Seq<char>) -> Result<(Seq<char>, Severity), Seq<char>> {
    match split::place_of(item, '=', 0) {
        None => Err(name + ": `"@ + item + "` is not a `check-id=severity` pair"@),
        Some(i) => match severity_of(text::trimmed(item.skip(i + 1))) {
            None => Err(
                name + ": unknown severity `"@ + item.skip(i + 1) + "` (expected info, warning, or error)"@,
            ),
            Some(severity) => Ok((text::trimmed(item.take(i)), severity)),
        },
    }
}

/// The overrides that entries name, or what is wrong with them.
pub open spec fn overrides_of(name: Seq<char>, s: Seq<Seq<char>>) -> Result<Seq<(Seq<char>, Severity)>, Seq<char>>
    decreases s.len(),
{
    if s.len() == 0 {
        Ok(Seq::empty())
    } else {
        match overrides_of(name, s.drop_last()) {
            Err(m) => Err(m),
            Ok(rest) => match override_of(name, s.last()) {
                Ok(p) => Ok(assoc::with_pair(rest, p.0, p.1)),
                Err(m) => Err(m),
            },
        }
    }
}

/// Once an entry is refused, the list is.
proof fn lemma_categories_refused(name: Seq<char>, s: Seq<Seq<char>>, i: int)
    requires
        0 <= i <= s.len(),
        categories_of(name, s.take(i)) is Err,
    ensures
        categories_of(name, s) == categories_of(name, s.take(i)),
    decreases s.len() - i,
{
    if i < s.len() {
        assert(s.take(i + 1).drop_last() =~= s.take(i));
        lemma_categories_refused(name, s, i + 1);
    } else {
        assert(s.take(i) =~= s);
    }
}

/// Once an entry is refused, the list is.
proof fn lemma_overrides_refused(name: Seq<char>, s: Seq<Seq<char>>, i: int)
    requires
        0 <= i <= s.len(),
        overrides_of(name, s.take(i)) is Err,
    ensures
        overrides_of(name, s) == overrides_of(name, s.take(i)),
    decreases s.len() - i,
{
    if i < s.len() {
        assert(s.take(i + 1).drop_last() =~= s.take(i));
        lemma_overrides_refused(name, s, i + 1);
    } else {
        assert(s.take(i) =~= s);
    }
}

/// The categories that a list names.
fn read_categories(name: &str, value: &str) -> (r: Result<Vec<Category>, ConfigError>)
    ensures
        match r {
            Ok(v) => categories_of(name@, split::items(value@)) == Ok::<Seq<Category>, Seq<char>>(v@),
            Err(e) => categories_of(name@, split::items(value@)) == Err::<Seq<Category>, Seq<char>>(e.reason()),
        },
{
    let entries: Vec<String> = list(value);
    let ghost t = text::texts(entries@);
    let mut out: Vec<Category> = Vec::new();
    let mut i: usize = 0;
    assert(out@ =~= Seq::empty());
    while i < entries.len()
        invariant
            i <= entries@.len(),
            t == text::texts(entries@),
            t == split::items(value@),
            categories_of(name@, t.take(i as int)) == Ok::<Seq<Category>, Seq<char>>(out@),
        decreases entries@.len() - i,
    {
        assert(t[i as int] == entries@[i as int]@);
        assert(t.take(i + 1).drop_last() =~= t.take(i as int));
        match parse_category(entries[i].as_str()) {
            Some(c) => {
                out.push(c);
            },
            None => {
                proof {
                    lemma_categories_refused(name@, t, i + 1);
                }
                return Err(
                    ConfigError::Parse(
                        cat4(
                            name,
                            ": unknown category `",
                            entries[i].as_str(),
                            "` (known: structural, temporal, statistical, semantic, video, provenance, autonomy)",
                        ),
                    ),
                );
            },
        }
        i = i + 1;
    }
    assert(t.take(i as int) =~= t);
    Ok(out)
}

/// An override that an entry names.
fn read_override(name: &str, item: &str) -> (r: Result<(String, Severity), ConfigError>)
    ensures
        match r {
            Ok(p) => override_of(name@, item@) == Ok::<(Seq<char>, Severity), Seq<char>>((p.0@, p.1)),
            Err(e) => override_of(name@, item@) == Err::<(Seq<char>, Severity), Seq<char>>(e.reason()),
        },
{
    let chars: Vec<char> = chars_of(item);
    match find_char(&chars, '=') {
        None => Err(ConfigError::Parse(cat4(name, ": `", item, "` is not a `check-id=severity` pair"))),
        Some(i) => {
            let n: usize = chars.len();
            let id: String = text_of(&chars, 0, i);
            let tag: String = text_of(&chars, i + 1, n);
            assert(id@ =~= item@.take(i as int));
            assert(tag@ =~= item@.skip(i + 1));
            match parse_severity(trim(tag.as_str()).as_str()) {
                None => Err(
                    ConfigError::Parse(
                        cat4(
                            name,
                            ": unknown severity `",
                            tag.as_str(),
                            "` (expected info, warning, or error)",
                        ),
                    ),
                ),
                Some(severity) => Ok((trim(id.as_str()), severity)),
            }
        },
    }
}

/// The overrides that a list names.
fn read_overrides(name: &str, value: &str) -> (r: Result<Vec<Entry<Severity>>, ConfigError>)
    ensures
        match r {
            Ok(v) => overrides_of(name@, split::items(value@)) == Ok::<Seq<(Seq<char>, Severity)>, Seq<char>>(
                assoc::pairs(v@),
            ),
            Err(e) => overrides_of(name@, split::items(value@)) == Err::<Seq<(Seq<char>, Severity)>, Seq<char>>(
                e.reason(),
            ),
        },
{
    let entries: Vec<String> = list(value);
    let ghost t = text::texts(entries@);
    let mut out: Vec<Entry<Severity>> = Vec::new();
    let mut i: usize = 0;
    assert(assoc::pairs(out@) =~= Seq::empty());
    while i < entries.len()
        invariant
            i <= entries@.len(),
            t == text::texts(entries@),
            t == split::items(value@),
            overrides_of(name@, t.take(i as int)) == Ok::<Seq<(Seq<char>, Severity)>, Seq<char>>(assoc::pairs(out@)),
        decreases entries@.len() - i,
    {
        assert(t[i as int] == entries@[i as int]@);
        assert(t.take(i + 1).drop_last() =~= t.take(i as int));
        match read_override(name, entries[i].as_str()) {
            Ok((id, severity)) => {
                assoc::put(&mut out, id, severity);
            },
            Err(e) => {
                proof {
                    lemma_overrides_refused(name@, t, i + 1);
                }
                return Err(e);
            },
        }
        i = i + 1;
    }
    assert(t.take(i as int) =~= t);
    Ok(out)
}

/// The number below 256 that a text writes.
pub open spec fn byte_of(s: Seq<char>) -> Option<u8> {
    match text::u64_of(s) {
        Some(n) => if n <= 255 { Some(n as u8) } else { None },
        None => None,
    }
}

/// The number below 256 that a text writes.
fn parse_byte(s: &str) -> (r: Option<u8>)
    ensures
        r == byte_of(s@),
{
    match parse_u64(s) {
        Some(n) => if n <= 255 {
            Some(n as u8)
        } else {
            None
        },
        None => None,
    }
}

// ---- one variable ----------------------------------------------------------------------------

/// A table of tolerances with one set, or what is wrong with the value.
pub open spec fn with_tolerance(
    t: TolerancesConfig,
    key: Seq<char>,
    name: Seq<char>,
    value: Seq<char>,
    number: Option<u64>,
) -> Result<TolerancesConfig, Seq<char>> {
    if key == "saturation_min_samples"@ {
        match text::u64_of(value) {
            Some(n) => Ok(TolerancesConfig { saturation_min_samples: Some(n), ..t }),
            None => Err(
                name + ": invalid saturation_min_samples `"@ + value + "` (expected a whole number)"@,
            ),
        }
    } else {
        match number {
            None => Err(name + ": invalid "@ + key + " `"@ + value + "` (expected a number)"@),
            Some(_) => Ok(
                if key == "clock_skew_ms"@ {
                    TolerancesConfig { clock_skew_ms: number, ..t }
                } else if key == "start_offset_ms"@ {
                    TolerancesConfig { start_offset_ms: number, ..t }
                } else if key == "end_offset_ms"@ {
                    TolerancesConfig { end_offset_ms: number, ..t }
                } else if key == "rate_deviation"@ {
                    TolerancesConfig { rate_deviation: number, ..t }
                } else if key == "gap_factor"@ {
                    TolerancesConfig { gap_factor: number, ..t }
                } else if key == "jitter_cv"@ {
                    TolerancesConfig { jitter_cv: number, ..t }
                } else if key == "episode_duration_factor"@ {
                    TolerancesConfig { episode_duration_factor: number, ..t }
                } else if key == "saturation_fraction"@ {
                    TolerancesConfig { saturation_fraction: number, ..t }
                } else if key == "outlier_z"@ {
                    TolerancesConfig { outlier_z: number, ..t }
                } else if key == "sequence_drop_fraction"@ {
                    TolerancesConfig { sequence_drop_fraction: number, ..t }
                } else if key == "ego_max_speed_mps"@ {
                    TolerancesConfig { ego_max_speed_mps: number, ..t }
                } else if key == "near_duplicate_fraction"@ {
                    TolerancesConfig { near_duplicate_fraction: number, ..t }
                } else {
                    TolerancesConfig { sensor_clock_offset_ms: number, ..t }
                },
            ),
        }
    }
}

/// Apply one `VERIDEX_TOLERANCE_<KEY>` value.
fn set_tolerance(
    config: &mut CheckConfig,
    key: &str,
    name: &str,
    value: &str,
    number: &Option<u64>,
) -> (r: Result<(), ConfigError>)
    ensures
        match r {
            Ok(_) => with_tolerance(old(config)@.tolerances, key@, name@, value@, *number) == Ok::<
                TolerancesConfig,
                Seq<char>,
            >(final(config)@.tolerances) && final(config)@ == (CheckConfigView {
                tolerances: final(config)@.tolerances,
                ..old(config)@
            }),
            Err(e) => with_tolerance(old(config)@.tolerances, key@, name@, value@, *number) == Err::<
                TolerancesConfig,
                Seq<char>,
            >(e.reason()),
        },
{
    if same(key, "saturation_min_samples") {
        return match parse_u64(value) {
            Some(n) => {
                config.tolerances.saturation_min_samples = Some(n);
                Ok(())
            },
            None => Err(
                ConfigError::Parse(
                    cat4(name, ": invalid saturation_min_samples `", value, "` (expected a whole number)"),
                ),
            ),
        };
    }
    let n: u64 = match number {
        None => {
            return Err(
                ConfigError::Parse(cat6(name, ": invalid ", key, " `", value, "` (expected a number)")),
            );
        },
        Some(n) => *n,
    };
    if same(key, "clock_skew_ms") {
        config.tolerances.clock_skew_ms = Some(n);
    } else if same(key, "start_offset_ms") {
        config.tolerances.start_offset_ms = Some(n);
    } else if same(key, "end_offset_ms") {
        config.tolerances.end_offset_ms = Some(n);
    } else if same(key, "rate_deviation") {
        config.tolerances.rate_deviation = Some(n);
    } else if same(key, "gap_factor") {
        config.tolerances.gap_factor = Some(n);
    } else if same(key, "jitter_cv") {
        config.tolerances.jitter_cv = Some(n);
    } else if same(key, "episode_duration_factor") {
        config.tolerances.episode_duration_factor = Some(n);
    } else if same(key, "saturation_fraction") {
        config.tolerances.saturation_fraction = Some(n);
    } else if same(key, "outlier_z") {
        config.tolerances.outlier_z = Some(n);
    } else if same(key, "sequence_drop_fraction") {
        config.tolerances.sequence_drop_fraction = Some(n);
    } else if same(key, "ego_max_speed_mps") {
        config.tolerances.ego_max_speed_mps = Some(n);
    } else if same(key, "near_duplicate_fraction") {
        config.tolerances.near_duplicate_fraction = Some(n);
    } else {
        config.tolerances.sensor_clock_offset_ms = Some(n);
    }
    Ok(())
}

/// The start of the name of a variable that sets a tolerance.
pub const TOLERANCE_PREFIX: &'static str = "VERIDEX_TOLERANCE_";

/// Whether a text starts with another.
pub open spec fn starts_with(s: Seq<char>, p: Seq<char>) -> bool {
    p.len() <= s.len() && s.take(p.len() as int) == p
}

/// What follows the start of a text, where it starts so.
fn strip_prefix(s: &str, p: &str) -> (r: Option<String>)
    ensures
        match r {
            Some(rest) => starts_with(s@, p@) && rest@ == s@.skip(p@.len() as int),
            None => !starts_with(s@, p@),
        },
{
    let chars: Vec<char> = chars_of(s);
    let prefix: Vec<char> = chars_of(p);
    if prefix.len() > chars.len() {
        return None;
    }
    let mut i: usize = 0;
    while i < prefix.len()
        invariant
            i <= prefix@.len() <= chars@.len(),
            chars@ == s@,
            prefix@ == p@,
            forall|k: int| 0 <= k < i ==> chars@[k] == prefix@[k],
        decreases prefix@.len() - i,
    {
        if chars[i] != prefix[i] {
            assert(s@.take(p@.len() as int)[i as int] != p@[i as int]);
            return None;
        }
        i = i + 1;
    }
    assert(s@.take(p@.len() as int) =~= p@);
    let rest: String = text_of(&chars, i, chars.len());
    assert(rest@ =~= s@.skip(p@.len() as int));
    Some(rest)
}

/// What a variable does to a configuration: the configuration and the key that it sets, where it sets
/// one, or what is wrong with it.
pub open spec fn applied(c: CheckConfigView, name: Seq<char>, v: Given) -> Result<
    (CheckConfigView, Option<Seq<char>>),
    Seq<char>,
> {
    let value = text::trimmed(v.text@);
    if starts_with(name, TOLERANCE_PREFIX@) {
        let key = text::lowered(name.skip(TOLERANCE_PREFIX@.len() as int));
        if !text::str_texts(TOLERANCE_KEYS@).contains(key) {
            Err(
                "unknown environment variable `"@ + name + "` (known tolerances: "@ + text::joined(
                    text::str_texts(TOLERANCE_KEYS@),
                    ", "@,
                ) + ")"@,
            )
        } else {
            match with_tolerance(c.tolerances, key, name, value, v.number) {
                Ok(t) => Ok((CheckConfigView { tolerances: t, ..c }, Some("tolerances."@ + key))),
                Err(m) => Err(m),
            }
        }
    } else {
        match key_of(name) {
            None => Ok((c, None)),
            Some(key) => if value.len() == 0 {
                Err(
                    name + " is empty; unset it to leave `"@ + key
                        + "` alone rather than setting it to nothing"@,
                )
            } else {
                match with_key(c, name, value) {
                    Ok(d) => Ok((d, Some(key))),
                    Err(m) => Err(m),
                }
            },
        }
    }
}

/// The key that a variable sets.
pub open spec fn key_of(name: Seq<char>) -> Option<Seq<char>> {
    if name == VARIABLES@[0].0@ {
        Some(VARIABLES@[0].1@)
    } else if name == VARIABLES@[1].0@ {
        Some(VARIABLES@[1].1@)
    } else if name == VARIABLES@[2].0@ {
        Some(VARIABLES@[2].1@)
    } else if name == VARIABLES@[3].0@ {
        Some(VARIABLES@[3].1@)
    } else if name == VARIABLES@[4].0@ {
        Some(VARIABLES@[4].1@)
    } else if name == VARIABLES@[5].0@ {
        Some(VARIABLES@[5].1@)
    } else {
        None
    }
}

/// A configuration with the value that a variable gives, or what is wrong with the value.
pub open spec fn with_key(c: CheckConfigView, name: Seq<char>, value: Seq<char>) -> Result<CheckConfigView, Seq<char>> {
    if name == VARIABLES@[0].0@ {
        if value == "error"@ {
            Ok(CheckConfigView { fail_on: FailOn::Error, ..c })
        } else if value == "warning"@ {
            Ok(CheckConfigView { fail_on: FailOn::Warning, ..c })
        } else {
            Err(name + ": invalid fail_on `"@ + value + "` (expected `error` or `warning`)"@)
        }
    } else if name == VARIABLES@[1].0@ {
        match byte_of(value) {
            Some(n) => Ok(CheckConfigView { min_score: Some(n), ..c }),
            None => Err(name + ": invalid min_score `"@ + value + "` (expected an integer 0-100)"@),
        }
    } else if name == VARIABLES@[2].0@ {
        match categories_of(name, split::items(value)) {
            Ok(s) => Ok(CheckConfigView { categories: Some(s), ..c }),
            Err(m) => Err(m),
        }
    } else if name == VARIABLES@[3].0@ {
        Ok(CheckConfigView { only_checks: Some(split::items(value)), ..c })
    } else if name == VARIABLES@[4].0@ {
        Ok(CheckConfigView { disabled_checks: split::items(value), ..c })
    } else {
        match overrides_of(name, split::items(value)) {
            Ok(s) => Ok(CheckConfigView { severity_overrides: s, ..c }),
            Err(m) => Err(m),
        }
    }
}

/// The key that a variable sets.
fn find_key(name: &str) -> (r: Option<&'static str>)
    ensures
        match r {
            Some(key) => key_of(name@) == Some(key@),
            None => key_of(name@) is None,
        },
{
    let table: [(&'static str, &'static str); 6] = VARIABLES;
    let mut i: usize = 0;
    while i < 6
        invariant
            i <= 6,
            table == VARIABLES,
            forall|k: int| 0 <= k < i ==> (#[trigger] VARIABLES@[k]).0@ != name@,
        decreases 6 - i,
    {
        if same(table[i].0, name) {
            return Some(table[i].1);
        }
        i = i + 1;
    }
    None
}

/// Gives a configuration the value of a variable.
fn set_key(config: &mut CheckConfig, name: &str, value: &str) -> (r: Result<(), ConfigError>)
    ensures
        match r {
            Ok(_) => with_key(old(config)@, name@, value@) == Ok::<CheckConfigView, Seq<char>>(final(config)@),
            Err(e) => with_key(old(config)@, name@, value@) == Err::<CheckConfigView, Seq<char>>(e.reason()),
        },
{
    let table: [(&'static str, &'static str); 6] = VARIABLES;
    if same(name, table[0].0) {
        if same(value, "error") {
            config.fail_on = FailOn::Error;
        } else if same(value, "warning") {
            config.fail_on = FailOn::Warning;
        } else {
            return Err(
                ConfigError::Parse(
                    cat4(name, ": invalid fail_on `", value, "` (expected `error` or `warning`)"),
                ),
            );
        }
    } else if same(name, table[1].0) {
        match parse_byte(value) {
            Some(n) => {
                config.min_score = Some(n);
            },
            None => {
                return Err(
                    ConfigError::Parse(
                        cat4(name, ": invalid min_score `", value, "` (expected an integer 0-100)"),
                    ),
                );
            },
        }
    } else if same(name, table[2].0) {
        match read_categories(name, value) {
            Ok(v) => {
                config.categories = Some(v);
            },
            Err(e) => {
                return Err(e);
            },
        }
    } else if same(name, table[3].0) {
        config.only_checks = Some(list(value));
    } else if same(name, table[4].0) {
        config.disabled_checks = list(value);
    } else {
        match read_overrides(name, value) {
            Ok(v) => {
                config.severity_overrides = v;
            },
            Err(e) => {
                return Err(e);
            },
        }
    }
    Ok(())
}

/// The known tolerance keys, separated by commas.
fn list_keys() -> (r: String)
    ensures
        r@ == text::joined(text::str_texts(TOLERANCE_KEYS@), ", "@),
{
    let keys: [&'static str; 14] = TOLERANCE_KEYS;
    let ghost t = text::str_texts(keys@);
    let mut out: Vec<String> = Vec::new();
    let mut i: usize = 0;
    assert(text::texts(out@) =~= t.take(0));
    while i < 14
        invariant
            i <= 14,
            keys == TOLERANCE_KEYS,
            t == text::str_texts(keys@),
            t.len() == 14,
            text::texts(out@) == t.take(i as int),
        decreases 14 - i,
    {
        out.push(String::from_str(keys[i]));
        assert(t.take(i + 1) =~= t.take(i as int).push(t[i as int]));
        i = i + 1;
    }
    assert(t.take(14) =~= t);
    join(&out, ", ")
}

/// Applies a variable to a configuration; the key that it set, where it set one.
fn apply(config: &mut CheckConfig, name: &str, v: &Given) -> (r: Result<Option<String>, ConfigError>)
    ensures
        match r {
            Ok(key) => applied(old(config)@, name@, *v) == Ok::<(CheckConfigView, Option<Seq<char>>), Seq<char>>(
                (final(config)@, crate::json::opt_view(key)),
            ),
            Err(e) => applied(old(config)@, name@, *v) == Err::<(CheckConfigView, Option<Seq<char>>), Seq<char>>(
                e.reason(),
            ),
        },
{
    let value: String = trim(v.text.as_str());
    if let Some(suffix) = strip_prefix(name, TOLERANCE_PREFIX) {
        let key: String = lower(suffix.as_str());
        let keys: [&'static str; 14] = TOLERANCE_KEYS;
        if !among(keys.as_slice(), key.as_str()) {
            return Err(
                ConfigError::Parse(
                    cat5(
                        "unknown environment variable `",
                        name,
                        "` (known tolerances: ",
                        list_keys().as_str(),
                        ")",
                    ),
                ),
            );
        }
        if let Err(e) = set_tolerance(config, key.as_str(), name, value.as_str(), &v.number) {
            return Err(e);
        }
        return Ok(Some(cat2("tolerances.", key.as_str())));
    }
    match find_key(name) {
        None => Ok(None),
        Some(key) => {
            if is_empty(value.as_str()) {
                return Err(
                    ConfigError::Parse(
                        cat4(
                            name,
                            " is empty; unset it to leave `",
                            key,
                            "` alone rather than setting it to nothing",
                        ),
                    ),
                );
            }
            match set_key(config, name, value.as_str()) {
                Ok(_) => Ok(Some(String::from_str(key))),
                Err(e) => Err(e),
            }
        },
    }
}

// ---- the whole environment -------------------------------------------------------------------

/// What variables, taken in turn, do to a configuration: the configuration and the keys that they
/// set, or what is wrong with the first that is refused.
pub open spec fn applied_all(c: CheckConfigView, vars: Seq<(Seq<char>, Given)>) -> Result<
    (CheckConfigView, Seq<Seq<char>>),
    Seq<char>,
>
    decreases vars.len(),
{
    if vars.len() == 0 {
        Ok((c, Seq::empty()))
    } else {
        match applied_all(c, vars.drop_last()) {
            Err(m) => Err(m),
            Ok((d, keys)) => match applied(d, vars.last().0, vars.last().1) {
                Err(m) => Err(m),
                Ok((e, Some(key))) => Ok((e, keys.push(key))),
                Ok((e, None)) => Ok((e, keys)),
            },
        }
    }
}

/// What an environment does to a configuration: the configuration and the keys that it set, in order,
/// or what is wrong. Of two variables of one name the last counts; they are taken in order of their
/// names, so that two environments with the same variables always produce the same errors.
pub open spec fn merged(c: CheckConfigView, vars: Seq<(Seq<char>, Given)>) -> Result<
    (CheckConfigView, Seq<Seq<char>>),
    Seq<char>,
> {
    match applied_all(c, assoc::collected(vars)) {
        Err(m) => Err(m),
        Ok((d, keys)) => match config::fault(d) {
            Some(m) => Err(m),
            None => Ok((d, seqs::text_set(keys))),
        },
    }
}

/// Once a variable is refused, the environment is.
proof fn lemma_refused(c: CheckConfigView, vars: Seq<(Seq<char>, Given)>, i: int)
    requires
        0 <= i <= vars.len(),
        applied_all(c, vars.take(i)) is Err,
    ensures
        applied_all(c, vars) == applied_all(c, vars.take(i)),
    decreases vars.len() - i,
{
    if i < vars.len() {
        assert(vars.take(i + 1).drop_last() =~= vars.take(i));
        lemma_refused(c, vars, i + 1);
    } else {
        assert(vars.take(i) =~= vars);
    }
}

/// The variables of an environment, in order of their names.
fn sort_variables(vars: Vec<Entry<Given>>) -> (r: Vec<Entry<Given>>)
    ensures
        assoc::pairs(r@) == assoc::collected(assoc::pairs(vars@)),
{
    let ghost p = assoc::pairs(vars@);
    let mut rest: Vec<Entry<Given>> = vars;
    let mut turned: Vec<Entry<Given>> = Vec::new();
    let ghost mut done: int = 0;
    assert(p.skip(0) =~= p);
    while rest.len() > 0
        invariant
            0 <= done <= p.len(),
            assoc::pairs(rest@) == p.take(p.len() - done),
            turned@.len() == done,
            forall|k: int| 0 <= k < done ==> (#[trigger] turned@[k]).key@ == p[p.len() - 1 - k].0 && turned@[k].value == p[p.len() - 1 - k].1,
        decreases rest@.len(),
    {
        let ghost was = rest@;
        assert(assoc::pairs(was).len() == was.len());
        match rest.pop() {
            Some(e) => {
                proof {
                    assert(assoc::pairs(was)[was.len() - 1] == (e.key@, e.value));
                    assert(p[p.len() - 1 - done] == p.take(p.len() - done)[was.len() - 1]);
                    assert(assoc::pairs(rest@) =~= p.take(p.len() - done - 1));
                    done = done + 1;
                }
                turned.push(e);
            },
            None => {},
        }
    }
    assert(assoc::pairs(rest@).len() == 0);
    let mut out: Vec<Entry<Given>> = Vec::new();
    let ghost mut n: int = 0;
    assert(assoc::pairs(out@) =~= Seq::empty());
    while turned.len() > 0
        invariant
            0 <= n <= p.len(),
            turned@.len() == p.len() - n,
            forall|k: int| 0 <= k < p.len() - n ==> (#[trigger] turned@[k]).key@ == p[p.len() - 1 - k].0 && turned@[k].value == p[p.len() - 1 - k].1,
            assoc::pairs(out@) == assoc::collected(p.take(n)),
        decreases turned@.len(),
    {
        match turned.pop() {
            Some(e) => {
                proof {
                    assert(p[n] == (e.key@, e.value));
                    assert(p.take(n + 1).drop_last() =~= p.take(n));
                    n = n + 1;
                }
                assoc::put(&mut out, e.key, e.value);
            },
            None => {},
        }
    }
    assert(p.take(n) =~= p);
    out
}

/// Merge the environment onto `base`, returning the merged config and the `veridex.toml` keys the
/// environment set, in order (so a reader can be told which layer a value came from).
///
/// Takes the variables rather than reading the process environment, so a caller — and a test —
/// decides what the environment *is*. The merged result is validated exactly as a parsed file is: a
/// value that arrives through the environment meets the same bar. A variable that begins otherwise,
/// or that names no key, belongs to something else and is left alone; one that names an unknown
/// tolerance is a typo, and is refused by name.
pub fn merge(base: CheckConfig, vars: Vec<Entry<Given>>) -> (r: Result<(CheckConfig, Vec<String>), ConfigError>)
    ensures
        match r {
            Ok(x) => merged(base@, assoc::pairs(vars@)) == Ok::<(CheckConfigView, Seq<Seq<char>>), Seq<char>>(
                (x.0@, text::texts(x.1@)),
            ),
            Err(e) => merged(base@, assoc::pairs(vars@)) == Err::<(CheckConfigView, Seq<Seq<char>>), Seq<char>>(
                e.reason(),
            ),
        },
{
    let ghost start = base@;
    let ghost given = assoc::pairs(vars@);
    let sorted: Vec<Entry<Given>> = sort_variables(vars);
    let ghost p = assoc::pairs(sorted@);
    let mut config: CheckConfig = base;
    let mut set: Vec<String> = Vec::new();
    let ghost mut keys: Seq<Seq<char>> = Seq::empty();
    let mut i: usize = 0;
    assert(text::texts(set@) =~= seqs::text_set(keys));
    while i < sorted.len()
        invariant
            i <= sorted@.len(),
            p == assoc::pairs(sorted@),
            p == assoc::collected(given),
            start == base@,
            given == assoc::pairs(vars@),
            applied_all(start, p.take(i as int)) == Ok::<(CheckConfigView, Seq<Seq<char>>), Seq<char>>((config@, keys)),
            text::texts(set@) == seqs::text_set(keys),
        decreases sorted@.len() - i,
    {
        let e: &Entry<Given> = &sorted[i];
        proof {
            assert(p[i as int] == (e.key@, e.value));
            assert(p.take(i + 1).drop_last() =~= p.take(i as int));
            assert(p.take(i + 1).last() == p[i as int]);
        }
        match apply(&mut config, e.key.as_str(), &e.value) {
            Err(x) => {
                proof {
                    lemma_refused(start, p, i + 1);
                }
                return Err(x);
            },
            Ok(Some(key)) => {
                proof {
                    seqs::lemma_distinct_step(keys, seqs::text_order(), key@);
                    keys = keys.push(key@);
                }
                let _new: bool = put_text(&mut set, key.as_str());
            },
            Ok(None) => {},
        }
        i = i + 1;
    }
    proof {
        assert(p.len() == sorted@.len());
        assert(p.take(i as int) =~= p);
    }
    match config.validate() {
        Err(e) => Err(e),
        Ok(_) => Ok((config, set)),
    }
}

/// A key that the environment does not set keeps the value of the layer below.
pub proof fn law_unset_keys_keep_their_values(c: CheckConfigView, vars: Seq<(Seq<char>, Given)>)
    requires
        applied_all(c, vars) is Ok,
    ensures
        ({
            let (d, keys) = applied_all(c, vars)->Ok_0;
            &&& d.keys_present == c.keys_present
            &&& !keys.contains("fail_on"@) ==> d.fail_on == c.fail_on
            &&& !keys.contains("min_score"@) ==> d.min_score == c.min_score
            &&& !keys.contains("categories"@) ==> d.categories == c.categories
            &&& !keys.contains("only_checks"@) ==> d.only_checks == c.only_checks
            &&& !keys.contains("disabled_checks"@) ==> d.disabled_checks == c.disabled_checks
            &&& !keys.contains("severity_overrides"@) ==> d.severity_overrides == c.severity_overrides
            &&& !keys.contains("tolerances."@ + "clock_skew_ms"@) ==> d.tolerances.clock_skew_ms == c.tolerances.clock_skew_ms
            &&& !keys.contains("tolerances."@ + "start_offset_ms"@) ==> d.tolerances.start_offset_ms == c.tolerances.start_offset_ms
            &&& !keys.contains("tolerances."@ + "end_offset_ms"@) ==> d.tolerances.end_offset_ms == c.tolerances.end_offset_ms
            &&& !keys.contains("tolerances."@ + "rate_deviation"@) ==> d.tolerances.rate_deviation == c.tolerances.rate_deviation
            &&& !keys.contains("tolerances."@ + "gap_factor"@) ==> d.tolerances.gap_factor == c.tolerances.gap_factor
            &&& !keys.contains("tolerances."@ + "jitter_cv"@) ==> d.tolerances.jitter_cv == c.tolerances.jitter_cv
            &&& !keys.contains("tolerances."@ + "episode_duration_factor"@) ==> d.tolerances.episode_duration_factor == c.tolerances.episode_duration_factor
            &&& !keys.contains("tolerances."@ + "saturation_fraction"@) ==> d.tolerances.saturation_fraction == c.tolerances.saturation_fraction
            &&& !keys.contains("tolerances."@ + "saturation_min_samples"@) ==> d.tolerances.saturation_min_samples == c.tolerances.saturation_min_samples
            &&& !keys.contains("tolerances."@ + "outlier_z"@) ==> d.tolerances.outlier_z == c.tolerances.outlier_z
            &&& !keys.contains("tolerances."@ + "sequence_drop_fraction"@) ==> d.tolerances.sequence_drop_fraction == c.tolerances.sequence_drop_fraction
            &&& !keys.contains("tolerances."@ + "ego_max_speed_mps"@) ==> d.tolerances.ego_max_speed_mps == c.tolerances.ego_max_speed_mps
            &&& !keys.contains("tolerances."@ + "near_duplicate_fraction"@) ==> d.tolerances.near_duplicate_fraction == c.tolerances.near_duplicate_fraction
            &&& !keys.contains("tolerances."@ + "sensor_clock_offset_ms"@) ==> d.tolerances.sensor_clock_offset_ms == c.tolerances.sensor_clock_offset_ms
        }),
    decreases vars.len(),
{
    if vars.len() > 0 {
        law_unset_keys_keep_their_values(c, vars.drop_last());
        let (d, keys) = applied_all(c, vars.drop_last())->Ok_0;
        let (name, v) = vars.last();
        if let Ok((e, Some(key))) = applied(d, name, v) {
            assert forall|k: Seq<char>| keys.contains(k) implies #[trigger] keys.push(key).contains(k) by {
                let j = choose|j: int| 0 <= j < keys.len() && keys[j] == k;
                assert(keys.push(key)[j] == k);
            }
            assert(keys.push(key)[keys.len() as int] == key);
            assert(keys.push(key).contains(key));
            if starts_with(name, TOLERANCE_PREFIX@) {
                lemma_known_key(text::lowered(name.skip(TOLERANCE_PREFIX@.len() as int)));
            }
        }
    }
}

/// A known tolerance key is one of those listed.
proof fn lemma_known_key(key: Seq<char>)
    requires
        text::str_texts(TOLERANCE_KEYS@).contains(key),
    ensures
        key == "clock_skew_ms"@ || key == "start_offset_ms"@ || key == "end_offset_ms"@ || key == "rate_deviation"@ || key == "gap_factor"@ || key == "jitter_cv"@ || key == "episode_duration_factor"@ || key == "saturation_fraction"@ || key == "saturation_min_samples"@ || key == "outlier_z"@ || key == "sequence_drop_fraction"@ || key == "ego_max_speed_mps"@ || key == "near_duplicate_fraction"@ || key == "sensor_clock_offset_ms"@,
{
    let t = text::str_texts(TOLERANCE_KEYS@);
    let i = choose|i: int| 0 <= i < t.len() && t[i] == key;
    assert(t[i] == TOLERANCE_KEYS@[i]@);
}

} // verus!
