use veridex_core::assoc::Entry;
use veridex_core::check::{Category, Severity};
use veridex_core::config::{CheckConfig, FailOn};
use veridex_core::effective::{
    render_effective_config, render_effective_config_json, settings, Inputs, Origin, Setting,
};

fn threshold(v: f64) -> u64 {
    v.to_bits()
}

fn inputs(file: &CheckConfig) -> Inputs<'_> {
    Inputs {
        config_path: None,
        file,
        profile: None,
        tolerances: file.to_run_config().tolerances,
        fail_on: file.fail_on,
        fail_on_from_flag: false,
        min_score: file.min_score,
        min_score_from_flag: false,
    }
}

fn find<'a>(s: &'a [Setting], key: &str) -> &'a Setting {
    s.iter().find(|x| x.key == key).unwrap()
}

#[test]
fn an_unconfigured_run_is_all_defaults() {
    let file = CheckConfig::default();
    let s = settings(&inputs(&file));
    assert_eq!(s.len(), 18);
    assert!(s.iter().all(|x| x.origin == Origin::Default && x.note.is_none()));
    assert_eq!(find(&s, "categories").value, "all");
    assert_eq!(find(&s, "disabled_checks").value, "none");
    assert_eq!(find(&s, "fail_on").value, "error");
    assert_eq!(find(&s, "min_score").value, "none");
    assert_eq!(find(&s, "tolerances.clock_skew_ms").value, "50");
    assert_eq!(find(&s, "tolerances.rate_deviation").value, "0.1");
    assert_eq!(find(&s, "tolerances.saturation_min_samples").value, "20");
}

#[test]
fn what_the_file_set_is_told_even_where_it_is_the_default() {
    let mut file = CheckConfig::default();
    file.keys_present = vec!["fail_on".to_string(), "disabled_checks".to_string()];
    let s = settings(&inputs(&file));
    assert_eq!(find(&s, "fail_on").origin, Origin::ConfigFile);
    assert_eq!(find(&s, "disabled_checks").origin, Origin::ConfigFile);
    assert_eq!(find(&s, "severity_overrides").origin, Origin::Default);
}

#[test]
fn each_layer_is_named_with_what_it_overrode() {
    let mut file = CheckConfig::default();
    file.categories = Some(vec![Category::Structure, Category::Temporal]);
    file.severity_overrides = vec![Entry { key: "a".to_string(), value: Severity::Info }];
    file.min_score = Some(70);
    file.tolerances.clock_skew_ms = Some(threshold(50.0));
    file.tolerances.gap_factor = Some(threshold(2.5));
    let mut i = inputs(&file);
    i.fail_on = FailOn::Warning;
    i.fail_on_from_flag = true;
    i.min_score = Some(90);
    i.min_score_from_flag = true;
    i.profile = Some("strict".to_string());
    i.tolerances.clock_skew_ns = 20_500_000;
    let s = settings(&i);
    assert_eq!(find(&s, "categories").value, "structural, temporal");
    assert_eq!(find(&s, "severity_overrides").value, "a=info");
    let f = find(&s, "fail_on");
    assert_eq!((f.value.as_str(), f.origin), ("warning", Origin::Flag));
    assert_eq!(f.note.as_deref(), Some("--fail-on overrides the config file's `Error`"));
    let m = find(&s, "min_score");
    assert_eq!((m.value.as_str(), m.origin), ("90", Origin::Flag));
    assert_eq!(m.note.as_deref(), Some("--min-score overrides the config file's 70"));
    let t = find(&s, "tolerances.clock_skew_ms");
    assert_eq!((t.value.as_str(), t.origin), ("20.5", Origin::Profile));
    assert_eq!(t.note.as_deref(), Some("profile `strict` tightened it from 50"));
    let g = find(&s, "tolerances.gap_factor");
    assert_eq!((g.value.as_str(), g.origin), ("2.5", Origin::ConfigFile));
}

#[test]
fn a_tolerance_moved_without_a_profile_says_so() {
    let file = CheckConfig::default();
    let mut i = inputs(&file);
    i.tolerances.saturation_min_samples = 5;
    let s = settings(&i);
    assert_eq!(find(&s, "tolerances.saturation_min_samples").note.as_deref(), Some("overridden from 20"));
}

#[test]
fn the_terminal_rendering_lines_up() {
    let file = CheckConfig::default();
    let shown = render_effective_config(&inputs(&file));
    let lines: Vec<&str> = shown.lines().collect();
    assert_eq!(lines[0], "Effective configuration");
    assert_eq!(lines[1], "  Config file: (none — built-in defaults)");
    assert_eq!(lines[2], "");
    assert_eq!(lines[3], "  categories                          all    (default)");
    assert_eq!(lines.len(), 21);
    assert!(shown.ends_with("(default)\n"));
}

#[test]
fn the_document_carries_every_setting() {
    let file = CheckConfig::default();
    let mut i = inputs(&file);
    i.config_path = Some("veridex.toml".to_string());
    i.fail_on_from_flag = true;
    let doc: serde_json::Value = serde_json::from_str(&render_effective_config_json(&i)).unwrap();
    assert_eq!(doc["schema"], "veridex.config/1");
    assert_eq!(doc["config_file"], "veridex.toml");
    assert_eq!(doc["profile"], serde_json::Value::Null);
    assert_eq!(doc["settings"].as_array().unwrap().len(), 18);
    assert_eq!(doc["settings"][4]["key"], "fail_on");
    assert_eq!(doc["settings"][4]["origin"], "flag");
    assert_eq!(doc["settings"][4]["note"], serde_json::Value::Null);
}

#[test]
fn origins_have_labels() {
    assert_eq!(Origin::Default.label(), "default");
    assert_eq!(Origin::ConfigFile.label(), "config file");
    assert_eq!(Origin::ConfigFile.tag(), "config-file");
    assert_eq!(Origin::Profile.label(), "profile");
    assert_eq!(Origin::Flag.label(), "flag");
}
