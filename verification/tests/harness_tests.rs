use nexis_ml::harness::{Control, Effect, Gate, MetricValue, Run, POLL_MILLIS};
use nexis_ml::protocol::{Emitter, Stream};
use nexis_ml::run_store::RunDir;
use nexis_ml::scalar::Real;

fn value(text: &str) -> serde_json::Value {
    serde_json::from_str(text).unwrap()
}

fn metric(v: f64) -> MetricValue {
    MetricValue {
        real: Real { bits: v.to_bits() },
        json: serde_json::Value::from(v),
        text: format!("{v:.4}"),
    }
}

fn run_dir() -> RunDir {
    RunDir { path: vec![".nexis-ml".to_string(), "runs".to_string(), "r1".to_string()] }
}

fn start<'a>(emitter: &'a Emitter) -> (Run<'a>, Vec<Effect>) {
    Run::start_at(
        emitter,
        run_dir(),
        "tabular",
        value("{\"k\":1}"),
        3,
        "cpu",
        "/abs/r1",
        "2026-06-15T15:05:01Z".to_string(),
    )
}

/// The events that are appended, and the lines for people.
fn split(effects: Vec<Effect>) -> (Vec<serde_json::Value>, Vec<String>) {
    let mut events = Vec::new();
    let mut lines = Vec::new();
    for e in effects {
        match e {
            Effect::Append { path, line } => {
                assert_eq!(path.last().unwrap(), "metrics.jsonl");
                events.push(value(&line));
            }
            Effect::Print { stream: Stream::Stdout, line } => lines.push(line),
            _ => {}
        }
    }
    (events, lines)
}

#[test]
fn cancel_command_sets_flag_and_releases_pause() {
    let mut c = Control::default();
    c.pause = true;
    c.handle("{\"cmd\":\"cancel\"}");
    assert!(c.cancel);
    assert!(!c.pause); // cancel releases a paused loop
}

#[test]
fn pause_and_resume_toggle_the_flag() {
    let mut c = Control::default();
    c.handle("{\"cmd\":\"pause\"}");
    assert!(c.pause);
    c.handle("{\"cmd\":\"resume\"}");
    assert!(!c.pause);
}

#[test]
fn malformed_or_unknown_commands_are_ignored() {
    let mut c = Control::default();
    c.handle("not json");
    c.handle("{\"cmd\":\"explode\"}");
    c.handle("{}");
    assert!(!c.cancel);
    assert!(!c.pause);
}

#[test]
fn a_command_is_the_text_of_one_member() {
    for line in ["[\"cancel\"]", "\"cancel\"", "{\"cmd\":1}", "{\"cmd\":[\"cancel\"]}", "{\"CMD\":\"cancel\"}", ""] {
        let mut c = Control::default();
        c.handle(line);
        assert_eq!(c, Control::default(), "{line}");
    }
    let mut c = Control::default();
    c.obey(Some("pause"));
    c.obey(None);
    assert_eq!(c, Control { cancel: false, pause: true });
}

#[test]
fn a_cancelled_run_stays_cancelled() {
    let mut c = Control::default();
    for line in ["{\"cmd\":\"cancel\"}", "{\"cmd\":\"pause\"}", "{\"cmd\":\"resume\"}", "junk"] {
        c.handle(line);
        assert!(c.cancel);
    }
}

#[test]
fn a_run_begins_with_its_configuration() {
    let emitter = Emitter::new(true);
    let (run, effects) = start(&emitter);
    assert!(!run.cancelled());
    assert_eq!(run.checkpoints_dir().last().unwrap(), "checkpoints");
    assert_eq!(run.artifacts_dir().last().unwrap(), "artifacts");
    assert_eq!(effects.len(), 5);
    match &effects[0] {
        Effect::Write(file) => {
            assert_eq!(file.path.last().unwrap(), "config.json");
            assert_eq!(file.tmp.last().unwrap(), "config.json.tmp");
            assert_eq!(file.text, "{\n  \"k\": 1\n}\n");
        }
        _ => panic!("no configuration"),
    }
    let expected = "{\"ev\":\"run.started\",\"run\":\"r1\",\"name\":\"tabular\",\"dir\":\"/abs/r1\",\
                    \"config\":{\"k\":1},\"totalEpochs\":3,\"device\":\"cpu\",\"protocol\":1,\
                    \"startedAt\":\"2026-06-15T15:05:01Z\"}";
    match (&effects[1], &effects[2]) {
        (Effect::Append { line, .. }, Effect::Print { stream: Stream::Stdout, line: printed }) => {
            assert_eq!(line, printed);
            assert_eq!(value(line), value(expected));
        }
        _ => panic!("no event"),
    }
    assert!(matches!(&effects[3], Effect::Print { stream: Stream::Stderr, line } if line == "run r1 started\n"));
    assert!(matches!(effects[4], Effect::WatchControl));
}

#[test]
fn a_run_in_a_terminal_does_not_read_commands() {
    let emitter = Emitter::new(false);
    let (_, effects) = start(&emitter);
    assert_eq!(effects.len(), 3);
    assert!(matches!(&effects[2], Effect::Print { stream: Stream::Stdout, line } if line == "run r1 started\n"));
}

#[test]
fn a_run_that_begins_now_has_the_time() {
    let emitter = Emitter::new(false);
    let (_, effects) = Run::start(&emitter, run_dir(), "n", value("{}"), 1, "cpu", "/r1");
    let (events, _) = split(effects);
    assert!(events[0]["startedAt"].as_str().unwrap() > "2020");
}

#[test]
fn metrics_share_a_step() {
    let emitter = Emitter::new(false);
    let (mut run, _) = start(&emitter);
    assert!(run.room_for(2));
    let (events, lines) = split(run.log(&[("b", metric(0.5)), ("a", metric(2.0))], 1));
    assert!(lines.is_empty());
    assert_eq!(
        events,
        vec![
            value("{\"ev\":\"metric\",\"run\":\"r1\",\"step\":1,\"epoch\":1,\"name\":\"b\",\"value\":0.5}"),
            value("{\"ev\":\"metric\",\"run\":\"r1\",\"step\":1,\"epoch\":1,\"name\":\"a\",\"value\":2.0}"),
        ]
    );
    let (events, _) = split(run.log(&[("b", metric(0.25))], 2));
    assert_eq!(events[0]["step"], 2);
    assert_eq!(run.steps(), 2);
    let (gate, effects) = run.epoch(2, false);
    assert_eq!(gate, Gate::Open);
    let (events, lines) = split(effects);
    assert_eq!(events, vec![value("{\"ev\":\"epoch\",\"run\":\"r1\",\"epoch\":2,\"of\":3}")]);
    assert_eq!(lines, vec!["epoch 2/3  a=2.0000  b=0.2500\n"]);
}

#[test]
fn what_is_not_a_number_is_null() {
    let emitter = Emitter::new(false);
    let (mut run, _) = start(&emitter);
    let (events, _) = split(run.log(&[("x", metric(f64::NAN))], 1));
    assert!(events[0]["value"].is_null());
}

#[test]
fn a_run_ends_with_its_summary() {
    let emitter = Emitter::new(false);
    let (mut run, _) = start(&emitter);
    for v in [0.5, 0.125, 0.75] {
        run.log(&[("loss", metric(v))], 1);
    }
    run.log(&[("acc", metric(1.0))], 1);
    run.epoch(1, false);
    let (events, lines) = split(run.artifact("grid", "/abs/g.png"));
    assert_eq!(events, vec![value("{\"ev\":\"artifact\",\"run\":\"r1\",\"kind\":\"grid\",\"path\":\"/abs/g.png\"}")]);
    assert!(lines.is_empty());
    let (events, lines) = split(run.info("hello"));
    assert_eq!(events, vec![value("{\"ev\":\"log\",\"run\":\"r1\",\"level\":\"info\",\"msg\":\"hello\"}")]);
    assert_eq!(lines, vec!["hello\n"]);
    let effects = run.finish_at("ok", "2026-06-15T16:00:00Z");
    let summary = "{\"status\":\"ok\",\"name\":\"tabular\",\"startedAt\":\"2026-06-15T15:05:01Z\",\
                   \"finishedAt\":\"2026-06-15T16:00:00Z\",\"totalEpochs\":3,\"lastEpoch\":1,\"device\":\"cpu\",\
                   \"metrics\":{\"loss\":{\"last\":0.75,\"min\":0.125,\"max\":0.75,\"count\":3},\
                   \"acc\":{\"last\":1.0,\"min\":1.0,\"max\":1.0,\"count\":1}},\
                   \"artifacts\":[{\"kind\":\"grid\",\"path\":\"/abs/g.png\"}]}";
    match &effects[0] {
        Effect::Write(file) => {
            assert_eq!(file.path.last().unwrap(), "summary.json");
            assert_eq!(value(&file.text), value(summary));
        }
        _ => panic!("no summary"),
    }
    let (events, lines) = split(effects);
    assert_eq!(events[0]["ev"], "run.finished");
    assert_eq!(events[0]["status"], "ok");
    assert_eq!(events[0]["summary"], value(summary));
    assert_eq!(lines, vec!["run r1 finished: ok\n"]);
}

#[test]
fn statistics_follow_the_values() {
    let emitter = Emitter::new(false);
    let (mut run, _) = start(&emitter);
    let series = [3.0, -1.5, 7.25, 0.0, -1.5, 2.0];
    for v in series {
        run.log(&[("m", metric(v)), ("other", metric(1.0))], 1);
    }
    let effects = run.finish("cancelled");
    match &effects[0] {
        Effect::Write(file) => {
            let m = &value(&file.text)["metrics"];
            assert_eq!(m["m"], value("{\"last\":2.0,\"min\":-1.5,\"max\":7.25,\"count\":6}"));
            assert_eq!(m["other"], value("{\"last\":1.0,\"min\":1.0,\"max\":1.0,\"count\":6}"));
        }
        _ => panic!("no summary"),
    }
}

#[test]
fn statistics_pass_over_what_is_not_a_number() {
    let emitter = Emitter::new(false);
    let (mut run, _) = start(&emitter);
    for v in [f64::NAN, 2.0, f64::NAN, 1.0] {
        run.log(&[("m", metric(v))], 1);
    }
    for v in [3.0, f64::NAN] {
        run.log(&[("n", metric(v))], 1);
    }
    let effects = run.finish("ok");
    match &effects[0] {
        Effect::Write(file) => {
            let m = &value(&file.text)["metrics"];
            assert_eq!(m["m"], value("{\"last\":1.0,\"min\":1.0,\"max\":2.0,\"count\":4}"));
            assert_eq!(m["n"], value("{\"last\":null,\"min\":3.0,\"max\":3.0,\"count\":2}"));
        }
        _ => panic!("no summary"),
    }
}

#[test]
fn protocol_output_is_the_metrics_file() {
    let emitter = Emitter::new(true);
    let (mut run, mut effects) = start(&emitter);
    effects.append(&mut run.log(&[("a", metric(1.0)), ("b", metric(2.0))], 1));
    effects.append(&mut run.epoch(1, false).1);
    run.control_line("{\"cmd\":\"pause\"}");
    effects.append(&mut run.epoch(2, false).1);
    effects.append(&mut run.info("some\nlines"));
    effects.append(&mut run.finish("ok"));
    let mut appended = Vec::new();
    let mut printed = Vec::new();
    for e in effects {
        match e {
            Effect::Append { line, .. } => appended.push(line),
            Effect::Print { stream: Stream::Stdout, line } => printed.push(line),
            _ => {}
        }
    }
    assert_eq!(appended, printed);
    assert_eq!(appended.len(), 6);
    for line in appended {
        assert!(line.ends_with('\n') && line.matches('\n').count() == 1);
        assert!(value(&line).is_object());
    }
}

#[test]
fn a_paused_run_waits_until_it_is_told() {
    let emitter = Emitter::new(true);
    let (mut run, _) = start(&emitter);
    assert_eq!(POLL_MILLIS, 100);
    let (gate, effects) = run.wait_if_paused(false);
    assert_eq!((gate, effects.len()), (Gate::Open, 0));
    run.control_line("  {\"cmd\":\"pause\"}\r\n");
    let (gate, effects) = run.wait_if_paused(false);
    assert_eq!(gate, Gate::Closing);
    assert!(matches!(&effects[0], Effect::Print { stream: Stream::Stderr, line } if line == "paused\n"));
    let (gate, effects) = run.wait_if_paused(true);
    assert_eq!((gate, effects.len()), (Gate::Closed, 0));
    run.control_line("{\"cmd\":\"resume\"}");
    let (gate, effects) = run.wait_if_paused(true);
    assert_eq!(gate, Gate::Open);
    assert!(matches!(&effects[0], Effect::Print { stream: Stream::Stderr, line } if line == "resumed\n"));
}

#[test]
fn a_paused_run_does_not_end_its_epoch() {
    let emitter = Emitter::new(false);
    let (mut run, _) = start(&emitter);
    run.control_line("{\"cmd\":\"pause\"}");
    let (gate, effects) = run.epoch(1, false);
    let (events, lines) = split(effects);
    assert_eq!((gate, events.len()), (Gate::Closing, 0));
    assert_eq!(lines, vec!["paused\n"]);
    let (gate, effects) = run.epoch(1, true);
    assert_eq!((gate, effects.len()), (Gate::Closed, 0));
    run.control_line("{\"cmd\":\"resume\"}");
    let (gate, effects) = run.epoch(1, true);
    let (events, lines) = split(effects);
    assert_eq!(gate, Gate::Open);
    assert_eq!(events, vec![value("{\"ev\":\"epoch\",\"run\":\"r1\",\"epoch\":1,\"of\":3}")]);
    assert_eq!(lines, vec!["resumed\n", "epoch 1/3  \n"]);
}

#[test]
fn cancelling_releases_a_paused_run() {
    let emitter = Emitter::new(true);
    let (mut run, _) = start(&emitter);
    run.control_line("{\"cmd\":\"pause\"}");
    run.control_line("{\"cmd\":\"cancel\"}");
    assert!(run.cancelled());
    assert_eq!(run.wait_if_paused(true).0, Gate::Open);
    run.control_line("{\"cmd\":\"pause\"}");
    assert_eq!(run.wait_if_paused(false).0, Gate::Closing);
    assert_eq!(run.wait_if_paused(true).0, Gate::Open);
}
