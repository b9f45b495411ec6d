use nexis_ml::calendar::civil_from_days;
use nexis_ml::json::{counts_value, texts_value};
use nexis_ml::protocol::{Emitter, Stream, ENV_FLAG, PROTOCOL_VERSION};
use nexis_ml::run_store::{
    atomic_write_json, iso_at, new_run_dir, now_iso, now_stamp, seconds_of, slug_of, slugify, stamp_at,
    RunDir, RunSearch,
};

fn strings(list: &[&str]) -> Vec<String> {
    list.iter().map(|s| s.to_string()).collect()
}

fn value(text: &str) -> serde_json::Value {
    serde_json::from_str(text).unwrap()
}

#[test]
fn slugify_matches_python_rules() {
    assert_eq!(slugify("Hello World"), "hello-world");
    assert_eq!(slugify("tabular"), "tabular");
    assert_eq!(slugify("  !!  "), "run");
    assert_eq!(slugify("a__b--c"), "a-b-c");
}

#[test]
fn slugs_are_lower_case_words() {
    assert_eq!(slugify(""), "run");
    assert_eq!(slugify("-x-"), "x");
    assert_eq!(slugify("ÄBC"), "bc");
    assert_eq!(slugify("Été 2026!"), "t-2026");
    assert_eq!(slugify("UPPER"), "upper");
}

#[test]
fn the_case_of_a_name_does_not_matter() {
    for name in ["Hello World", "tabular", "A_b-C 9"] {
        let slug = slugify(name);
        assert_eq!(slugify(&name.to_ascii_uppercase()), slug);
        assert_eq!(slugify(&name.to_ascii_lowercase()), slug);
        assert!(!slug.chars().any(|c| c.is_ascii_uppercase()));
    }
    // The Kelvin sign and the dotted capital have letters of ASCII in lower case.
    assert_eq!(slugify("\u{212a}\u{130}"), "ki");
}

#[test]
fn a_slug_stays_as_it_is() {
    for name in ["Hello World", "  !!  ", "a__b--c", "Été 2026!"] {
        let once = slugify(name);
        assert_eq!(slugify(&once), once);
        assert!(!once.starts_with('-') && !once.ends_with('-') && !once.contains("--"));
    }
}

#[test]
fn stamp_has_expected_shape() {
    let s = now_stamp();
    // YYYY-MM-DD-HHMM
    assert_eq!(s.len(), 15);
    assert_eq!(s.matches('-').count(), 3);
}

#[test]
fn the_clock_reads_after_2020() {
    let s = now_stamp();
    assert!(s.as_str() > "2020-01-01-0000");
    let iso = now_iso();
    assert_eq!(iso.len(), 20);
    assert!(iso.as_str() > "2020-01-01T00:00:00Z");
}

#[test]
fn a_clock_before_1970_reads_zero() {
    assert_eq!(seconds_of(None), 0);
    assert_eq!(seconds_of(Some(1_781_535_901)), 1_781_535_901);
    assert_eq!(seconds_of(Some(u64::MAX)), -1);
}

#[test]
fn slugs_of_lowered_names() {
    assert_eq!(slug_of("a  b"), "a-b");
    assert_eq!(slug_of("A_"), "A");
    assert_eq!(slug_of("_"), "run");
    assert_eq!(slug_of("9-"), "9");
}

#[test]
fn civil_from_days_epoch_is_1970_01_01() {
    assert_eq!(civil_from_days(0), (1970, 1, 1));
}

#[test]
fn days_become_dates() {
    assert_eq!(civil_from_days(-1), (1969, 12, 31));
    assert_eq!(civil_from_days(59), (1970, 3, 1));
    assert_eq!(civil_from_days(11_016), (2000, 2, 29));
    assert_eq!(civil_from_days(19_782), (2024, 2, 29));
    assert_eq!(civil_from_days(47_541), (2100, 3, 1));
    assert_eq!(civil_from_days(-719_468), (0, 3, 1));
}

#[test]
fn every_day_has_its_own_date() {
    let mut before = civil_from_days(-800_000);
    for day in -799_999..800_000 {
        let date = civil_from_days(day);
        assert!(date > before);
        before = date;
    }
}

#[test]
fn stamps_and_times_of_known_moments() {
    assert_eq!(stamp_at(0), "1970-01-01-0000");
    assert_eq!(iso_at(0), "1970-01-01T00:00:00Z");
    assert_eq!(stamp_at(1_781_535_901), "2026-06-15-1505");
    assert_eq!(iso_at(1_781_535_901), "2026-06-15T15:05:01Z");
    assert_eq!(stamp_at(-1), "1969-12-31-2359");
    assert_eq!(iso_at(253_402_300_800), "10000-01-01T00:00:00Z");
}

#[test]
fn later_stamps_sort_later() {
    let moments = [0i64, 60, 3_600, 86_400, 951_782_400, 1_781_535_901, 253_402_300_799];
    for pair in moments.windows(2) {
        assert!(stamp_at(pair[0]) < stamp_at(pair[1]));
        let earlier = format!("{}-zzz-9", stamp_at(pair[0]));
        let later = format!("{}-a", stamp_at(pair[1]));
        assert!(earlier < later);
    }
}

#[test]
fn run_directories_are_numbered_from_two() {
    let search = RunSearch::starting_at("2026-06-15-1505", "My Run");
    let base = "2026-06-15-1505-my-run";
    let id = |existing: &[&str]| search.first_free(&strings(existing)).unwrap().run_id();
    assert_eq!(search.first_free(&Vec::new()).unwrap().path, strings(&[".nexis-ml", "runs", base]));
    assert_eq!(id(&["other", "2026-06-15-1505-my-run-2"]), base);
    let (two, three) = (format!("{base}-2"), format!("{base}-3"));
    assert_eq!(id(&[base]), two);
    assert_eq!(id(&[&three, base]), two);
    assert_eq!(id(&[&two, base]), three);
}

#[test]
fn runs_share_no_directory() {
    let search = RunSearch::starting_at("2026-06-15-1505", "r");
    let mut existing = Vec::new();
    for _ in 0..12 {
        let id = search.first_free(&existing).unwrap().run_id();
        assert!(!existing.contains(&id));
        existing.push(id);
    }
    assert_eq!(existing[11], "2026-06-15-1505-r-12");
}

#[test]
fn a_new_run_directory_carries_the_stamp_and_the_slug() {
    let id = new_run_dir("tabular").first_free(&Vec::new()).unwrap().run_id();
    assert_eq!(id.len(), 15 + "-tabular".len());
    assert!(id.ends_with("-tabular"));
}

#[test]
fn a_run_directory_has_its_places() {
    let dir = RunDir { path: strings(&[".nexis-ml", "runs", "r1"]) };
    assert_eq!(dir.run_id(), "r1");
    assert_eq!(dir.checkpoints_dir(), strings(&[".nexis-ml", "runs", "r1", "checkpoints"]));
    assert_eq!(dir.artifacts_dir(), strings(&[".nexis-ml", "runs", "r1", "artifacts"]));
    assert_eq!(dir.metrics_file(), strings(&[".nexis-ml", "runs", "r1", "metrics.jsonl"]));
    assert_eq!(RunDir { path: Vec::new() }.run_id(), "run");
}

#[test]
fn files_are_written_through_a_temporary_name() {
    let dir = RunDir { path: strings(&["r1"]) };
    let config = value("{\"b\":1,\"a\":[true,null]}");
    let file = dir.write_config(&config);
    assert_eq!(file.path, strings(&["r1", "config.json"]));
    assert_eq!(file.tmp, strings(&["r1", "config.json.tmp"]));
    assert_eq!(file.text, "{\n  \"a\": [\n    true,\n    null\n  ],\n  \"b\": 1\n}\n");
    let summary = dir.write_summary(&value("{}"));
    assert_eq!(summary.path, strings(&["r1", "summary.json"]));
    assert_eq!(summary.tmp, strings(&["r1", "summary.json.tmp"]));
    assert_eq!(summary.text, "{}\n");
    let other = atomic_write_json(&strings(&["d"]), "plain", &value("7"));
    assert_eq!(other.tmp, strings(&["d", "plain.json.tmp"]));
    assert_eq!(other.text, "7\n");
}

#[test]
fn an_event_is_one_line() {
    let dir = RunDir { path: strings(&["r1"]) };
    let line = dir.append_event(&value("{\"ev\":\"log\",\"msg\":\"a\\nb\"}")).unwrap();
    assert_eq!(line, "{\"ev\":\"log\",\"msg\":\"a\\nb\"}\n");
    assert_eq!(line.matches('\n').count(), 1);
}

#[test]
fn protocol_mode_comes_from_the_flag_or_the_environment() {
    assert_eq!(PROTOCOL_VERSION, 1);
    assert_eq!(ENV_FLAG, "NEXIS_ML_PROTOCOL");
    assert!(Emitter::from_env_or_flag(true, None).enabled());
    assert!(Emitter::from_env_or_flag(false, Some("1")).enabled());
    assert!(!Emitter::from_env_or_flag(false, Some("true")).enabled());
    assert!(!Emitter::from_env_or_flag(false, None).enabled());
}

#[test]
fn events_are_printed_in_protocol_mode_only() {
    let event = value("{\"ev\":\"epoch\",\"epoch\":2}");
    let (same, line) = Emitter::new(true).emit(event.clone());
    assert_eq!(same, event);
    assert_eq!(line.unwrap(), "{\"epoch\":2,\"ev\":\"epoch\"}\n");
    let (same, line) = Emitter::new(false).emit(event.clone());
    assert_eq!(same, event);
    assert!(line.is_none());
}

#[test]
fn lines_for_people_keep_clear_of_the_events() {
    assert_eq!(Emitter::new(true).console("hi"), (Stream::Stderr, "hi\n".to_string()));
    assert_eq!(Emitter::new(false).console("hi"), (Stream::Stdout, "hi\n".to_string()));
}

#[test]
fn lists_become_arrays() {
    assert_eq!(texts_value(&strings(&["a", "b\"c"])), value("[\"a\",\"b\\\"c\"]"));
    assert_eq!(counts_value(&vec![16, 0, 64]), value("[16,0,64]"));
    assert_eq!(texts_value(&Vec::new()), value("[]"));
}
