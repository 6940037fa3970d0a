//! The effective configuration a run will use, with **where each value came from**.
//!
//! A verdict records the configuration it ran under, but only after a run — and only the resolved
//! numbers, not their provenance. The question people ask is *why is this threshold 20 ms when my
//! `veridex.toml` says 50?* The answer is a chain (built-in default → config file → policy profile →
//! command-line flag), and every step of it is invisible in a bare number.
//!
//! So each setting is reported as a value **and** an [`Origin`]: the layer that last set it, plus a
//! note where one layer overrode another.

use vstd::prelude::*;
use vstd::string::*;

use crate::assoc;
use crate::assoc::Entry;
use crate::cat::{cat2, cat3, cat4};
use crate::certificate::render::list_tags;
use crate::check::Severity;
use crate::config;
use crate::config::{CheckConfig, CheckConfigView, FailOn, TolerancesConfig};
use crate::decimal;
use crate::engine;
use crate::engine::{collect_overrides, VERSION};
use crate::json;
use crate::json::{member, opt_json, pretty_text, text_json, Json, JsonView, Member};
use crate::lines;
use crate::lines::{count_bytes, write_lines};
use crate::number;
use crate::number::short_millis;
use crate::text;
use crate::text::{chars_of, dec_u64, holds, join};
use crate::tolerances::Tolerances;

verus! {

broadcast use text::lemma_texts_push;

/// The layer a setting's value came from. Later layers override earlier ones.
#[derive(Debug, Clone, Copy, PartialEq, Eq, Structural)]
pub enum Origin {
    /// Veridex's built-in default: nothing set this.
    Default,
    /// A `veridex.toml`.
    ConfigFile,
    /// A named policy profile (`--profile`).
    Profile,
    /// A command-line flag.
    Flag,
}

impl Origin {
    /// The label used for a terminal.
    pub open spec fn spec_label(self) -> Seq<char> {
        match self {
            Origin::Default => "default"@,
            Origin::ConfigFile => "config file"@,
            Origin::Profile => "profile"@,
            Origin::Flag => "flag"@,
        }
    }

    /// The label used for a terminal.
    pub fn label(self) -> (r: &'static str)
        ensures
            r@ == self.spec_label(),
    {
        match self {
            Origin::Default => "default",
            Origin::ConfigFile => "config file",
            Origin::Profile => "profile",
            Origin::Flag => "flag",
        }
    }

    /// The tag used in documents.
    pub open spec fn spec_tag(self) -> Seq<char> {
        match self {
            Origin::Default => "default"@,
            Origin::ConfigFile => "config-file"@,
            Origin::Profile => "profile"@,
            Origin::Flag => "flag"@,
        }
    }

    /// The tag used in documents.
    pub fn tag(self) -> (r: &'static str)
        ensures
            r@ == self.spec_tag(),
    {
        match self {
            Origin::Default => "default",
            Origin::ConfigFile => "config-file",
            Origin::Profile => "profile",
            Origin::Flag => "flag",
        }
    }
}

/// One resolved setting: its config key, its value, where the value came from, and — when a layer
/// overrode another — what it overrode.
#[derive(Debug)]
pub struct Setting {
    /// The key as it is written in `veridex.toml` (so a printed value can be pasted back).
    pub key: String,
    /// The resolved value, rendered the way the config file writes it.
    pub value: String,
    /// The layer that set it.
    pub origin: Origin,
    /// What this layer overrode, when it overrode something.
    pub note: Option<String>,
}

/// What a setting is.
#[verifier::ext_equal]
pub struct SettingView {
    /// The key.
    pub key: Seq<char>,
    /// The value.
    pub value: Seq<char>,
    /// The layer that set it.
    pub origin: Origin,
    /// What this layer overrode.
    pub note: Option<Seq<char>>,
}

impl View for Setting {
    type V = SettingView;

    open spec fn view(&self) -> SettingView {
        SettingView { key: self.key@, value: self.value@, origin: self.origin, note: json::opt_view(self.note) }
    }
}

/// What settings are.
pub open spec fn views(s: Seq<Setting>) -> Seq<SettingView> {
    s.map_values(|x: Setting| x@)
}

/// Everything needed to explain a run's configuration, as the front end assembled it.
pub struct Inputs<'a> {
    /// The config file that was read, if any (path as given, for the reader's benefit).
    pub config_path: Option<String>,
    /// The config file as parsed. `CheckConfig::default()` when there was none.
    pub file: &'a CheckConfig,
    /// The name of the policy profile applied, if any.
    pub profile: Option<String>,
    /// The tolerances the run will actually use, after every layer.
    pub tolerances: Tolerances,
    /// The failure threshold the run will use.
    pub fail_on: FailOn,
    /// Whether `--fail-on` set it (as opposed to the file or the default).
    pub fail_on_from_flag: bool,
    /// The score gate the run will use, if any.
    pub min_score: Option<u8>,
    /// Whether `--min-score` set it.
    pub min_score_from_flag: bool,
}

// ---- selection -------------------------------------------------------------------------------

/// A setting without a note, set by the file or left at its default.
pub open spec fn selection(key: Seq<char>, value: Seq<char>, set_in_file: bool) -> SettingView {
    SettingView {
        key,
        value,
        origin: if set_in_file {
            Origin::ConfigFile
        } else {
            Origin::Default
        },
        note: None,
    }
}

/// An override as the config file writes it.
pub open spec fn override_text(p: (Seq<char>, Severity)) -> Seq<char> {
    p.0 + "="@ + p.1.spec_tag()
}

/// Overrides as the config file writes them.
pub open spec fn override_texts(s: Seq<(Seq<char>, Severity)>) -> Seq<Seq<char>> {
    s.map_values(|p: (Seq<char>, Severity)| override_text(p))
}

/// The settings that select checks. Whether the file set one that has no "unset" value is read off the
/// keys that the file carried.
pub open spec fn selections(file: CheckConfigView) -> Seq<SettingView> {
    seq![
        selection(
            "categories"@,
            match file.categories {
                None => "all"@,
                Some(c) => text::joined(engine::tags(c), ", "@),
            },
            file.categories is Some,
        ),
        selection(
            "only_checks"@,
            match file.only_checks {
                None => "all"@,
                Some(c) => text::joined(c, ", "@),
            },
            file.only_checks is Some,
        ),
        selection(
            "disabled_checks"@,
            if file.disabled_checks.len() == 0 {
                "none"@
            } else {
                text::joined(file.disabled_checks, ", "@)
            },
            file.disabled_checks.len() > 0 || file.keys_present.contains("disabled_checks"@),
        ),
        selection(
            "severity_overrides"@,
            if file.severity_overrides.len() == 0 {
                "none"@
            } else {
                text::joined(override_texts(assoc::collected(file.severity_overrides)), ", "@)
            },
            file.severity_overrides.len() > 0 || file.keys_present.contains("severity_overrides"@),
        ),
    ]
}

/// A setting without a note.
fn make_selection(key: &str, value: String, set_in_file: bool) -> (r: Setting)
    ensures
        r@ == selection(key@, value@, set_in_file),
{
    Setting {
        key: String::from_str(key),
        value,
        origin: if set_in_file {
            Origin::ConfigFile
        } else {
            Origin::Default
        },
        note: None,
    }
}

/// Overrides as the config file writes them.
fn list_overrides(list: &Vec<Entry<Severity>>) -> (r: Vec<String>)
    ensures
        text::texts(r@) == override_texts(assoc::pairs(list@)),
{
    let ghost o = override_texts(assoc::pairs(list@));
    let mut out: Vec<String> = Vec::new();
    let mut i: usize = 0;
    assert(text::texts(out@) =~= o.take(0));
    while i < list.len()
        invariant
            i <= list@.len(),
            o == override_texts(assoc::pairs(list@)),
            text::texts(out@) == o.take(i as int),
        decreases list@.len() - i,
    {
        out.push(cat3(list[i].key.as_str(), "=", list[i].value.tag()));
        proof {
            assert(assoc::pairs(list@)[i as int] == (list@[i as int].key@, list@[i as int].value));
            assert(o.take(i + 1) =~= o.take(i as int).push(o[i as int]));
        }
        i = i + 1;
    }
    assert(o.take(i as int) =~= o);
    out
}

/// The settings that select checks.
fn list_selections(file: &CheckConfig) -> (r: Vec<Setting>)
    ensures
        views(r@) == selections(file@),
{
    let categories: String = match &file.categories {
        None => String::from_str("all"),
        Some(c) => join(&list_tags(c), ", "),
    };
    let only: String = match &file.only_checks {
        None => String::from_str("all"),
        Some(c) => join(c, ", "),
    };
    assert(file@.disabled_checks.len() == file.disabled_checks@.len());
    let disabled: String = if file.disabled_checks.len() == 0 {
        String::from_str("none")
    } else {
        join(&file.disabled_checks, ", ")
    };
    assert(file@.severity_overrides.len() == file.severity_overrides@.len());
    let overrides: String = if file.severity_overrides.len() == 0 {
        String::from_str("none")
    } else {
        join(&list_overrides(&collect_overrides(&file.severity_overrides)), ", ")
    };
    let mut out: Vec<Setting> = Vec::new();
    out.push(make_selection("categories", categories, file.categories.is_some()));
    out.push(make_selection("only_checks", only, file.only_checks.is_some()));
    out.push(
        make_selection(
            "disabled_checks",
            disabled,
            file.disabled_checks.len() > 0 || holds(&file.keys_present, "disabled_checks"),
        ),
    );
    out.push(
        make_selection(
            "severity_overrides",
            overrides,
            file.severity_overrides.len() > 0 || holds(&file.keys_present, "severity_overrides"),
        ),
    );
    assert(views(out@) =~= selections(file@));
    out
}

// ---- gates -----------------------------------------------------------------------------------

/// A failure threshold as the config file writes it.
pub open spec fn fail_on_text(f: FailOn) -> Seq<char> {
    match f {
        FailOn::Error => "error"@,
        FailOn::Warning => "warning"@,
    }
}

/// A failure threshold by its name.
pub open spec fn fail_on_name(f: FailOn) -> Seq<char> {
    match f {
        FailOn::Error => "Error"@,
        FailOn::Warning => "Warning"@,
    }
}

/// The exit threshold: a flag beats the file, which beats the default.
pub open spec fn fail_on_setting(i: Inputs) -> SettingView {
    SettingView {
        key: "fail_on"@,
        value: fail_on_text(i.fail_on),
        origin: if i.fail_on_from_flag {
            Origin::Flag
        } else if i.file@.fail_on != FailOn::Error || i.file@.keys_present.contains("fail_on"@) {
            Origin::ConfigFile
        } else {
            Origin::Default
        },
        note: if i.fail_on_from_flag && i.file@.fail_on != i.fail_on {
            Some("--fail-on overrides the config file's `"@ + fail_on_name(i.file@.fail_on) + "`"@)
        } else {
            None
        },
    }
}

/// The score gate: a flag beats the file, which beats the default.
pub open spec fn min_score_setting(i: Inputs) -> SettingView {
    SettingView {
        key: "min_score"@,
        value: match i.min_score {
            None => "none"@,
            Some(n) => text::dec(n as nat),
        },
        origin: if i.min_score_from_flag {
            Origin::Flag
        } else if i.file@.min_score is Some {
            Origin::ConfigFile
        } else {
            Origin::Default
        },
        note: match i.file@.min_score {
            Some(n) => if i.min_score_from_flag && Some(n) != i.min_score {
                Some("--min-score overrides the config file's "@ + text::dec(n as nat))
            } else {
                None
            },
            None => None,
        },
    }
}

/// The exit threshold.
fn make_fail_on(i: &Inputs) -> (r: Setting)
    ensures
        r@ == fail_on_setting(*i),
{
    let name: &str = match i.file.fail_on {
        FailOn::Error => "Error",
        FailOn::Warning => "Warning",
    };
    Setting {
        key: String::from_str("fail_on"),
        value: match i.fail_on {
            FailOn::Error => String::from_str("error"),
            FailOn::Warning => String::from_str("warning"),
        },
        origin: if i.fail_on_from_flag {
            Origin::Flag
        } else if i.file.fail_on != FailOn::Error || holds(&i.file.keys_present, "fail_on") {
            Origin::ConfigFile
        } else {
            Origin::Default
        },
        note: if i.fail_on_from_flag && i.file.fail_on != i.fail_on {
            Some(cat3("--fail-on overrides the config file's `", name, "`"))
        } else {
            None
        },
    }
}

/// The score gate.
fn make_min_score(i: &Inputs) -> (r: Setting)
    ensures
        r@ == min_score_setting(*i),
{
    let same: bool = match (i.file.min_score, i.min_score) {
        (Some(a), Some(b)) => a == b,
        (None, None) => true,
        _ => false,
    };
    Setting {
        key: String::from_str("min_score"),
        value: match i.min_score {
            None => String::from_str("none"),
            Some(n) => dec_u64(n as u64),
        },
        origin: if i.min_score_from_flag {
            Origin::Flag
        } else if i.file.min_score.is_some() {
            Origin::ConfigFile
        } else {
            Origin::Default
        },
        note: match i.file.min_score {
            Some(n) => if i.min_score_from_flag && !same {
                Some(cat2("--min-score overrides the config file's ", dec_u64(n as u64).as_str()))
            } else {
                None
            },
            None => None,
        },
    }
}

// ---- tolerances ------------------------------------------------------------------------------

/// A tolerance: what the file (or the default) implies where nothing moved it since. Only a profile
/// moves a tolerance after the file, and only downward.
#[verifier::opaque]
pub open spec fn tolerance(
    key: Seq<char>,
    set_in_file: bool,
    unchanged: bool,
    value: Seq<char>,
    file_value: Seq<char>,
    profile: Option<Seq<char>>,
) -> SettingView {
    if unchanged {
        selection("tolerances."@ + key, value, set_in_file)
    } else {
        SettingView {
            key: "tolerances."@ + key,
            value,
            origin: Origin::Profile,
            note: Some(
                match profile {
                    Some(name) => "profile `"@ + name + "` tightened it from "@ + file_value,
                    None => "overridden from "@ + file_value,
                },
            ),
        }
    }
}

/// A tolerance in nanoseconds.
pub open spec fn time_tolerance(key: Seq<char>, set: bool, now: i64, was: i64, profile: Option<Seq<char>>) -> SettingView {
    tolerance(
        key,
        set,
        now == was,
        number::short_millis_text(now as int),
        number::short_millis_text(was as int),
        profile,
    )
}

/// A tolerance that is a double.
pub open spec fn value_tolerance(
    key: Seq<char>,
    set: bool,
    now: u64,
    was: u64,
    profile: Option<Seq<char>>,
) -> SettingView {
    tolerance(key, set, number::equal(now, was), decimal::short_text(now), decimal::short_text(was), profile)
}

/// A tolerance that is a count.
pub open spec fn count_tolerance(key: Seq<char>, set: bool, now: u64, was: u64, profile: Option<Seq<char>>) -> SettingView {
    tolerance(key, set, now == was, text::dec(now as nat), text::dec(was as nat), profile)
}


/// The tolerances of times, against what the file alone implies.
pub open spec fn time_settings(
    t: TolerancesConfig,
    now: Tolerances,
    was: Tolerances,
    profile: Option<Seq<char>>,
) -> Seq<SettingView> {
    seq![
        time_tolerance("clock_skew_ms"@, t.clock_skew_ms is Some, now.clock_skew_ns, was.clock_skew_ns, profile),
        time_tolerance("start_offset_ms"@, t.start_offset_ms is Some, now.start_offset_ns, was.start_offset_ns, profile),
        time_tolerance("end_offset_ms"@, t.end_offset_ms is Some, now.end_offset_ns, was.end_offset_ns, profile),
    ]
}

/// The tolerances of the pacing of a recording, against what the file alone implies.
pub open spec fn pacing_settings(
    t: TolerancesConfig,
    now: Tolerances,
    was: Tolerances,
    profile: Option<Seq<char>>,
) -> Seq<SettingView> {
    seq![
        value_tolerance("rate_deviation"@, t.rate_deviation is Some, now.rate_deviation, was.rate_deviation, profile),
        value_tolerance("gap_factor"@, t.gap_factor is Some, now.gap_factor, was.gap_factor, profile),
        value_tolerance("jitter_cv"@, t.jitter_cv is Some, now.jitter_cv, was.jitter_cv, profile),
        value_tolerance("episode_duration_factor"@, t.episode_duration_factor is Some, now.episode_duration_factor, was.episode_duration_factor, profile),
    ]
}

/// The tolerances of the values of a stream, against what the file alone implies.
pub open spec fn value_settings(
    t: TolerancesConfig,
    now: Tolerances,
    was: Tolerances,
    profile: Option<Seq<char>>,
) -> Seq<SettingView> {
    seq![
        value_tolerance("saturation_fraction"@, t.saturation_fraction is Some, now.saturation_fraction, was.saturation_fraction, profile),
        count_tolerance("saturation_min_samples"@, t.saturation_min_samples is Some, now.saturation_min_samples, was.saturation_min_samples, profile),
        value_tolerance("outlier_z"@, t.outlier_z is Some, now.outlier_z, was.outlier_z, profile),
    ]
}

/// The tolerances of a rig, against what the file alone implies.
pub open spec fn rig_settings(
    t: TolerancesConfig,
    now: Tolerances,
    was: Tolerances,
    profile: Option<Seq<char>>,
) -> Seq<SettingView> {
    seq![
        value_tolerance("sequence_drop_fraction"@, t.sequence_drop_fraction is Some, now.sequence_drop_fraction, was.sequence_drop_fraction, profile),
        value_tolerance("ego_max_speed_mps"@, t.ego_max_speed_mps is Some, now.ego_max_speed_mps, was.ego_max_speed_mps, profile),
    ]
}

/// The tolerances of a run, against what the file alone implies.
pub open spec fn tolerance_settings(
    t: TolerancesConfig,
    now: Tolerances,
    was: Tolerances,
    profile: Option<Seq<char>>,
) -> Seq<SettingView> {
    time_settings(t, now, was, profile) + pacing_settings(t, now, was, profile) + value_settings(t, now, was, profile)
        + rig_settings(t, now, was, profile)
}

/// Every setting of a run, in a stable order.
pub open spec fn settings_of(i: Inputs) -> Seq<SettingView> {
    selections(i.file@) + seq![fail_on_setting(i), min_score_setting(i)] + tolerance_settings(
        i.file@.tolerances,
        i.tolerances,
        config::resolved(i.file@.tolerances),
        json::opt_view(i.profile),
    )
}

/// A tolerance.
fn make_tolerance(
    key: &str,
    set_in_file: bool,
    unchanged: bool,
    value: String,
    file_value: &str,
    profile: &Option<String>,
) -> (r: Setting)
    ensures
        r@ == tolerance(key@, set_in_file, unchanged, value@, file_value@, json::opt_view(*profile)),
{
    reveal(tolerance);
    let name: String = cat2("tolerances.", key);
    if unchanged {
        make_selection(name.as_str(), value, set_in_file)
    } else {
        Setting {
            key: name,
            value,
            origin: Origin::Profile,
            note: Some(
                match profile {
                    Some(p) => cat4("profile `", p.as_str(), "` tightened it from ", file_value),
                    None => cat2("overridden from ", file_value),
                },
            ),
        }
    }
}

/// A tolerance in nanoseconds.
fn make_time(key: &str, set: bool, now: i64, was: i64, profile: &Option<String>) -> (r: Setting)
    ensures
        r@ == time_tolerance(key@, set, now, was, json::opt_view(*profile)),
{
    make_tolerance(key, set, now == was, short_millis(now), short_millis(was).as_str(), profile)
}

/// A tolerance that is a double.
fn make_value(key: &str, set: bool, now: u64, was: u64, profile: &Option<String>) -> (r: Setting)
    ensures
        r@ == value_tolerance(key@, set, now, was, json::opt_view(*profile)),
{
    make_tolerance(
        key,
        set,
        number::eq(now, was),
        decimal::short(now),
        decimal::short(was).as_str(),
        profile,
    )
}

/// A tolerance that is a count.
fn make_count(key: &str, set: bool, now: u64, was: u64, profile: &Option<String>) -> (r: Setting)
    ensures
        r@ == count_tolerance(key@, set, now, was, json::opt_view(*profile)),
{
    make_tolerance(key, set, now == was, dec_u64(now), dec_u64(was).as_str(), profile)
}

/// The tolerances of times.
fn list_time(t: &TolerancesConfig, now: &Tolerances, was: &Tolerances, profile: &Option<String>) -> (r: Vec<Setting>)
    ensures
        views(r@) == time_settings(*t, *now, *was, json::opt_view(*profile)),
{
    let mut out: Vec<Setting> = Vec::new();
    out.push(make_time("clock_skew_ms", t.clock_skew_ms.is_some(), now.clock_skew_ns, was.clock_skew_ns, profile));
    out.push(make_time("start_offset_ms", t.start_offset_ms.is_some(), now.start_offset_ns, was.start_offset_ns, profile));
    out.push(make_time("end_offset_ms", t.end_offset_ms.is_some(), now.end_offset_ns, was.end_offset_ns, profile));
    assert(views(out@) =~= time_settings(*t, *now, *was, json::opt_view(*profile)));
    out
}

/// The tolerances of the pacing of a recording.
fn list_pacing(t: &TolerancesConfig, now: &Tolerances, was: &Tolerances, profile: &Option<String>) -> (r: Vec<Setting>)
    ensures
        views(r@) == pacing_settings(*t, *now, *was, json::opt_view(*profile)),
{
    let mut out: Vec<Setting> = Vec::new();
    out.push(make_value("rate_deviation", t.rate_deviation.is_some(), now.rate_deviation, was.rate_deviation, profile));
    out.push(make_value("gap_factor", t.gap_factor.is_some(), now.gap_factor, was.gap_factor, profile));
    out.push(make_value("jitter_cv", t.jitter_cv.is_some(), now.jitter_cv, was.jitter_cv, profile));
    out.push(make_value("episode_duration_factor", t.episode_duration_factor.is_some(), now.episode_duration_factor, was.episode_duration_factor, profile));
    assert(views(out@) =~= pacing_settings(*t, *now, *was, json::opt_view(*profile)));
    out
}

/// The tolerances of the values of a stream.
fn list_value(t: &TolerancesConfig, now: &Tolerances, was: &Tolerances, profile: &Option<String>) -> (r: Vec<Setting>)
    ensures
        views(r@) == value_settings(*t, *now, *was, json::opt_view(*profile)),
{
    let mut out: Vec<Setting> = Vec::new();
    out.push(make_value("saturation_fraction", t.saturation_fraction.is_some(), now.saturation_fraction, was.saturation_fraction, profile));
    out.push(make_count("saturation_min_samples", t.saturation_min_samples.is_some(), now.saturation_min_samples, was.saturation_min_samples, profile));
    out.push(make_value("outlier_z", t.outlier_z.is_some(), now.outlier_z, was.outlier_z, profile));
    assert(views(out@) =~= value_settings(*t, *now, *was, json::opt_view(*profile)));
    out
}

/// The tolerances of a rig.
fn list_rig(t: &TolerancesConfig, now: &Tolerances, was: &Tolerances, profile: &Option<String>) -> (r: Vec<Setting>)
    ensures
        views(r@) == rig_settings(*t, *now, *was, json::opt_view(*profile)),
{
    let mut out: Vec<Setting> = Vec::new();
    out.push(make_value("sequence_drop_fraction", t.sequence_drop_fraction.is_some(), now.sequence_drop_fraction, was.sequence_drop_fraction, profile));
    out.push(make_value("ego_max_speed_mps", t.ego_max_speed_mps.is_some(), now.ego_max_speed_mps, was.ego_max_speed_mps, profile));
    assert(views(out@) =~= rig_settings(*t, *now, *was, json::opt_view(*profile)));
    out
}

/// Adds settings.
fn extend(out: &mut Vec<Setting>, more: Vec<Setting>)
    ensures
        views(final(out)@) == views(old(out)@) + views(more@),
{
    let ghost (a, b) = (out@, more@);
    let mut rest: Vec<Setting> = more;
    out.append(&mut rest);
    assert(views(a + b) =~= views(a) + views(b));
}

/// Every setting of the run, in a stable order.
pub fn settings(inputs: &Inputs) -> (r: Vec<Setting>)
    ensures
        views(r@) == settings_of(*inputs),
{
    let from_file: Tolerances = inputs.file.tolerances.resolve();
    let mut out: Vec<Setting> = list_selections(inputs.file);
    out.push(make_fail_on(inputs));
    out.push(make_min_score(inputs));
    assert(views(out@) =~= selections(inputs.file@) + seq![fail_on_setting(*inputs), min_score_setting(*inputs)]);
    let t: &TolerancesConfig = &inputs.file.tolerances;
    let now: &Tolerances = &inputs.tolerances;
    extend(&mut out, list_time(t, now, &from_file, &inputs.profile));
    extend(&mut out, list_pacing(t, now, &from_file, &inputs.profile));
    extend(&mut out, list_value(t, now, &from_file, &inputs.profile));
    extend(&mut out, list_rig(t, now, &from_file, &inputs.profile));
    assert(views(out@) =~= settings_of(*inputs));
    out
}

/// A run that nothing configured reports every setting as a default, without a note.
pub proof fn law_an_unconfigured_run_is_all_defaults(i: Inputs)
    requires
        i.file@ == config::default_config(),
        i.tolerances == config::resolved(config::no_tolerances()),
        i.fail_on == FailOn::Error,
        !i.fail_on_from_flag,
        i.min_score is None,
        !i.min_score_from_flag,
    ensures
        forall|k: int|
            0 <= k < settings_of(i).len() ==> (#[trigger] settings_of(i)[k]).origin == Origin::Default
                && settings_of(i)[k].note is None,
{
    reveal(tolerance);
    let s = settings_of(i);
    let t = tolerance_settings(
        i.file@.tolerances,
        i.tolerances,
        config::resolved(i.file@.tolerances),
        json::opt_view(i.profile),
    );
    assert forall|k: int| 0 <= k < s.len() implies (#[trigger] s[k]).origin == Origin::Default && s[k].note is None by {
        if k < 4 {
            assert(s[k] == selections(i.file@)[k]);
        } else if k >= 6 {
            assert(s[k] == t[k - 6]);
        }
    }
}

// ---- rendering -------------------------------------------------------------------------------

/// The schema tag on the machine-readable rendering.
pub const EFFECTIVE_CONFIG_SCHEMA_VERSION: &'static str = "veridex.config/1";

/// The greatest number of bytes of the keys, or of the values, of some settings.
pub open spec fn widest(s: Seq<SettingView>, keys: bool) -> nat
    decreases s.len(),
{
    if s.len() == 0 {
        0
    } else {
        let n = lines::byte_len(if keys { s.last().key } else { s.last().value });
        let rest = widest(s.drop_last(), keys);
        if n > rest { n } else { rest }
    }
}

/// Spaces.
pub open spec fn spaces(n: nat) -> Seq<char> {
    Seq::new(n, |i: int| ' ')
}

/// A text with spaces after it, up to a width.
pub open spec fn padded(s: Seq<char>, width: nat) -> Seq<char> {
    if s.len() < width { s + spaces((width - s.len()) as nat) } else { s }
}

/// The line of a setting.
pub open spec fn setting_line(s: SettingView, key_width: nat, value_width: nat) -> Seq<char> {
    "  "@ + padded(s.key, key_width) + "  "@ + padded(s.value, value_width) + "  ("@ + s.origin.spec_label() + ")"@
        + (match s.note {
        Some(note) => " — "@ + note,
        None => ""@,
    })
}

/// The lines of settings.
pub open spec fn setting_lines(s: Seq<SettingView>, key_width: nat, value_width: nat) -> Seq<Seq<char>> {
    s.map_values(|x: SettingView| setting_line(x, key_width, value_width))
}

/// The effective configuration, line by line.
pub open spec fn config_lines(i: Inputs) -> Seq<Seq<char>> {
    let s = settings_of(i);
    seq![
        "Effective configuration"@,
        "  Config file: "@ + (match i.config_path {
            Some(p) => p@,
            None => "(none — built-in defaults)"@,
        }),
    ] + (match i.profile {
        Some(p) => seq!["  Profile:     "@ + p@],
        None => Seq::empty(),
    }) + seq![""@] + setting_lines(s, widest(s, true), widest(s, false))
}

/// The greatest number of bytes of the keys, or of the values, of some settings.
fn find_widest(s: &Vec<Setting>, keys: bool) -> (r: u128)
    ensures
        r as nat == widest(views(s@), keys),
{
    let ghost v = views(s@);
    let mut r: u128 = 0;
    let mut i: usize = 0;
    while i < s.len()
        invariant
            i <= s@.len(),
            v == views(s@),
            r as nat == widest(v.take(i as int), keys),
        decreases s@.len() - i,
    {
        assert(v[i as int] == s@[i as int]@);
        assert(v.take(i + 1).drop_last() =~= v.take(i as int));
        assert(v.take(i + 1).last() == v[i as int]);
        let chars: Vec<char> = if keys { chars_of(s[i].key.as_str()) } else { chars_of(s[i].value.as_str()) };
        let n: u128 = count_bytes(&chars);
        if n > r {
            r = n;
        }
        i = i + 1;
    }
    assert(v.take(i as int) =~= v);
    r
}

/// A text with spaces after it, up to a width.
fn pad(s: &str, width: u128) -> (r: String)
    ensures
        r@ == padded(s@, width as nat),
{
    let mut n: u128 = chars_of(s).len() as u128;
    let mut out: String = String::from_str(s);
    assert(s@ + spaces(0) =~= s@);
    while n < width
        invariant
            s@.len() <= n,
            out@ == s@ + spaces((n - s@.len()) as nat),
            n <= width || n == s@.len(),
        decreases width - n,
    {
        out.push(' ');
        assert(s@ + spaces((n + 1 - s@.len()) as nat) =~= (s@ + spaces((n - s@.len()) as nat)).push(' '));
        n = n + 1;
    }
    assert(out@ =~= padded(s@, width as nat));
    out
}

/// The line of a setting.
fn make_line(s: &Setting, key_width: u128, value_width: u128) -> (r: String)
    ensures
        r@ == setting_line(s@, key_width as nat, value_width as nat),
{
    let mut out: String = String::from_str("  ");
    out.append(pad(s.key.as_str(), key_width).as_str());
    out.append("  ");
    out.append(pad(s.value.as_str(), value_width).as_str());
    out.append("  (");
    out.append(s.origin.label());
    out.append(")");
    match &s.note {
        Some(note) => {
            out.append(cat2(" — ", note.as_str()).as_str());
        },
        None => {
            out.append("");
        },
    }
    out
}

/// Render the effective configuration for a terminal.
pub fn render_effective_config(inputs: &Inputs) -> (r: String)
    ensures
        r@ == lines::written(config_lines(*inputs)),
{
    let mut out: Vec<String> = Vec::new();
    out.push(String::from_str("Effective configuration"));
    let path: &str = match &inputs.config_path {
        Some(p) => p.as_str(),
        None => "(none — built-in defaults)",
    };
    out.push(cat2("  Config file: ", path));
    if let Some(p) = &inputs.profile {
        out.push(cat2("  Profile:     ", p.as_str()));
    }
    out.push(String::from_str(""));
    let s: Vec<Setting> = settings(inputs);
    let keys: u128 = find_widest(&s, true);
    let values: u128 = find_widest(&s, false);
    let ghost v = views(s@);
    let ghost all = setting_lines(v, keys as nat, values as nat);
    let ghost head = text::texts(out@);
    assert(head =~= seq!["Effective configuration"@, "  Config file: "@ + path@] + (match inputs.profile {
        Some(p) => seq!["  Profile:     "@ + p@],
        None => Seq::empty(),
    }) + seq![""@]);
    let mut i: usize = 0;
    assert(head + all.take(0) =~= head);
    while i < s.len()
        invariant
            i <= s@.len(),
            v == views(s@),
            all == setting_lines(v, keys as nat, values as nat),
            text::texts(out@) == head + all.take(i as int),
        decreases s@.len() - i,
    {
        out.push(make_line(&s[i], keys, values));
        assert(v[i as int] == s@[i as int]@);
        assert(head + all.take(i + 1) =~= (head + all.take(i as int)).push(all[i as int]));
        i = i + 1;
    }
    assert(all.take(i as int) =~= all);
    assert(text::texts(out@) =~= config_lines(*inputs));
    write_lines(&out)
}

/// A setting as a document.
pub open spec fn setting_doc(s: SettingView) -> JsonView {
    JsonView::Object(
        seq![
            ("key"@, JsonView::Text(s.key)),
            ("value"@, JsonView::Text(s.value)),
            ("origin"@, JsonView::Text(s.origin.spec_tag())),
            ("note"@, json::opt_text_view(s.note)),
        ],
    )
}

/// Settings as documents.
pub open spec fn setting_docs(s: Seq<SettingView>) -> Seq<JsonView> {
    s.map_values(|x: SettingView| setting_doc(x))
}

/// The effective configuration as a document.
pub open spec fn config_doc(i: Inputs) -> JsonView {
    JsonView::Object(
        seq![
            ("schema"@, JsonView::Text(EFFECTIVE_CONFIG_SCHEMA_VERSION@)),
            ("veridex_version"@, JsonView::Text(VERSION@)),
            ("config_file"@, json::opt_text_view(json::opt_view(i.config_path))),
            ("profile"@, json::opt_text_view(json::opt_view(i.profile))),
            ("settings"@, JsonView::List(setting_docs(settings_of(i)))),
        ],
    )
}

/// A setting as a document.
fn make_setting(s: &Setting) -> (r: Json)
    ensures
        r.doc() == setting_doc(s@),
{
    broadcast use json::group_json;

    let mut m: Vec<Member> = Vec::new();
    m.push(member("key", text_json(s.key.as_str())));
    m.push(member("value", text_json(s.value.as_str())));
    m.push(member("origin", text_json(s.origin.tag())));
    m.push(member("note", opt_json(&s.note)));
    assert(json::members(m@) =~= setting_doc(s@)->Object_0);
    Json::Object(m)
}

/// The effective configuration as a document.
pub fn config_document(inputs: &Inputs) -> (r: Json)
    ensures
        r.doc() == config_doc(*inputs),
{
    broadcast use json::group_json;

    let s: Vec<Setting> = settings(inputs);
    let ghost v = views(s@);
    let ghost all = setting_docs(v);
    let mut list: Vec<Json> = Vec::new();
    let mut i: usize = 0;
    assert(json::docs(list@) =~= all.take(0));
    while i < s.len()
        invariant
            i <= s@.len(),
            v == views(s@),
            all == setting_docs(v),
            json::docs(list@) == all.take(i as int),
        decreases s@.len() - i,
    {
        list.push(make_setting(&s[i]));
        assert(v[i as int] == s@[i as int]@);
        assert(all.take(i + 1) =~= all.take(i as int).push(all[i as int]));
        i = i + 1;
    }
    assert(all.take(i as int) =~= all);
    let mut m: Vec<Member> = Vec::new();
    m.push(member("schema", text_json(EFFECTIVE_CONFIG_SCHEMA_VERSION)));
    m.push(member("veridex_version", text_json(VERSION)));
    m.push(member("config_file", opt_json(&inputs.config_path)));
    m.push(member("profile", opt_json(&inputs.profile)));
    m.push(member("settings", Json::List(list)));
    assert(json::members(m@) =~= config_doc(*inputs)->Object_0);
    Json::Object(m)
}

/// Render the effective configuration as JSON (`veridex.config/1`).
pub fn render_effective_config_json(inputs: &Inputs) -> (r: String)
    ensures
        r@ == json::pretty(config_doc(*inputs)),
{
    pretty_text(&config_document(inputs))
}

} // verus!
