use nexis_ml::config::{HiddenSpec, Root};
use nexis_ml::harness::{Effect, Gate, MetricValue};
use nexis_ml::protocol::Emitter;
use nexis_ml::run_store::RunDir;
use nexis_ml::scalar::Real;
use nexis_ml::training::{
    batches, run_cnn_training, run_cnn_training_at, run_training, run_training_at, Schedule, Session, Sizes, Stage,
    Task,
};

fn value(text: &str) -> serde_json::Value {
    serde_json::from_str(text).unwrap()
}

fn strings(list: &[&str]) -> Vec<String> {
    list.iter().map(|s| s.to_string()).collect()
}

fn metric(v: f64) -> MetricValue {
    MetricValue {
        real: Real { bits: v.to_bits() },
        json: serde_json::Value::from(v),
        text: format!("{v:.4}"),
    }
}

fn run_dir() -> RunDir {
    RunDir { path: vec!["r1".to_string()] }
}

fn root(epochs: u32, batch_size: usize) -> Root {
    let mut root = Root::default();
    root.train.epochs = epochs;
    root.train.batch_size = batch_size;
    root.train.device = "cpu".to_string();
    root.model.hidden = HiddenSpec::Layers(vec![8, 4]);
    root
}

fn tabular<'a>(emitter: &'a Emitter, root: &Root, n_train: usize) -> (Session<'a>, Vec<Effect>) {
    run_training_at(
        emitter,
        run_dir(),
        "/abs/r1",
        root,
        value("0.05"),
        value("0.2"),
        "cpu",
        Sizes { n_train, n_val: 2 },
        &strings(&["x1", "x2"]),
        strings(&["a", "b"]),
        value("[0.5,1.5]"),
        value("[1.0,2.0]"),
        "2026-06-15T15:05:01Z".to_string(),
    )
}

fn images<'a>(emitter: &'a Emitter, root: &Root, n_train: usize) -> (Session<'a>, Vec<Effect>) {
    run_cnn_training_at(
        emitter,
        run_dir(),
        "/abs/r1",
        root,
        value("0.05"),
        value("0.2"),
        "gpu",
        Sizes { n_train, n_val: 2 },
        24,
        32,
        strings(&["a", "b"]),
        "2026-06-15T15:05:01Z".to_string(),
    )
}

fn appended(effects: &[Effect]) -> Vec<serde_json::Value> {
    effects
        .iter()
        .filter_map(|e| match e {
            Effect::Append { line, .. } => Some(value(line)),
            _ => None,
        })
        .collect()
}

/// Carries a session to its end and gives the names of its tasks.
fn drive(session: &mut Session, losses: &[f64], cancel_at: Option<usize>) -> Vec<String> {
    let mut names = Vec::new();
    let mut losses = losses.iter();
    loop {
        if cancel_at == Some(names.len()) {
            session.control_line("{\"cmd\":\"cancel\"}");
        }
        assert!(session.can_log());
        match session.next_task() {
            Task::Train { epoch, start, end } => {
                names.push(format!("train {epoch}: {start}..{end}"));
                session.trained(metric(1.0));
            }
            Task::Validate { epoch } => {
                names.push(format!("validate {epoch}"));
                let loss = *losses.next().unwrap();
                assert_eq!(session.predicted(&[0, 1], &[0, 0]), 1);
                session.validated(metric(loss), metric(0.5), None);
            }
            Task::SaveMatrix { path, .. } => {
                names.push(path.join("/"));
                session.matrix_saved("/abs/cm");
            }
            Task::SaveGrid { path } => {
                names.push(path.join("/"));
                session.grid_saved(Some("/abs/grid"));
            }
            Task::SaveCheckpoint { path, .. } => {
                names.push(path.join("/"));
                session.checkpoint_saved();
            }
            Task::EndEpoch { epoch } => {
                names.push(format!("end {epoch}"));
                assert_eq!(session.epoch_ended().0, Gate::Open);
            }
            Task::Finish => return names,
        }
    }
}

#[test]
fn a_run_on_a_table_begins() {
    let emitter = Emitter::new(false);
    let (_, effects) = tabular(&emitter, &root(2, 3), 7);
    let events = appended(&effects);
    let config = "{\"train\":{\"epochs\":2,\"batch_size\":3,\"lr\":0.05,\"val_split\":0.2,\"seed\":42,\
                  \"device\":\"cpu\"},\"model\":{\"hidden\":[8,4]},\"engine\":\"nexis-ml-rs\",\
                  \"derived\":{\"classes\":[\"a\",\"b\"],\"task\":\"classification\",\
                  \"features\":[\"x1\",\"x2\"]}}";
    assert_eq!(events[0]["config"], value(config));
    assert_eq!(events[0]["name"], "tabular");
    assert_eq!(
        events[1]["msg"],
        "burn MLP (Rust engine, cpu): 7 train / 2 val rows, 2 features, 2 classes, hidden=[8, 4]"
    );
}

#[test]
fn a_run_on_images_begins() {
    let emitter = Emitter::new(false);
    let (_, effects) = images(&emitter, &root(2, 3), 7);
    let events = appended(&effects);
    let config = "{\"train\":{\"epochs\":2,\"batch_size\":3,\"lr\":0.05,\"val_split\":0.2,\"seed\":42,\
                  \"device\":\"cpu\"},\"model\":{\"conv1\":16,\"conv2\":32,\"hidden\":8},\
                  \"engine\":\"nexis-ml-rs\",\"derived\":{\"classes\":[\"a\",\"b\"],\
                  \"task\":\"classification\",\"img_size\":[24,32]}}";
    assert_eq!(events[0]["config"], value(config));
    assert_eq!(events[0]["name"], "image");
    assert_eq!(
        events[1]["msg"],
        "burn CNN (Rust engine, gpu): 7 train / 2 val images (32x24), 2 classes, conv 16/32, hidden=8"
    );
}

#[test]
fn runs_that_begin_now_have_the_time() {
    let emitter = Emitter::new(false);
    let sizes = || Sizes { n_train: 1, n_val: 1 };
    let (_, effects) = run_training(
        &emitter, run_dir(), "/r1", &root(1, 1), value("0.1"), value("0.2"), "cpu", sizes(),
        &strings(&["x"]), strings(&["a", "b"]), value("[0.0]"), value("[1.0]"),
    );
    assert!(appended(&effects)[0]["startedAt"].as_str().unwrap() > "2020");
    let (_, effects) = run_cnn_training(
        &emitter, run_dir(), "/r1", &root(1, 1), value("0.1"), value("0.2"), "cpu", sizes(), 2, 2,
        strings(&["a", "b"]),
    );
    assert!(appended(&effects)[0]["startedAt"].as_str().unwrap() > "2020");
}

#[test]
fn every_epoch_trains_on_every_row() {
    let emitter = Emitter::new(false);
    let (mut session, _) = tabular(&emitter, &root(2, 3), 7);
    assert_eq!(
        drive(&mut session, &[0.5, 0.75], None),
        vec![
            "train 1: 0..3", "train 1: 3..6", "train 1: 6..7", "validate 1",
            "r1/artifacts/cm-epoch1.json", "r1/checkpoints/best.json", "end 1",
            "train 2: 0..3", "train 2: 3..6", "train 2: 6..7", "validate 2",
            "r1/artifacts/cm-epoch2.json", "end 2",
        ]
    );
    let events = appended(&session.finish_at("2026-06-15T16:00:00Z"));
    assert_eq!(events[0]["msg"], "best val loss: 0.5000");
    assert_eq!(events[1]["status"], "ok");
    assert_eq!(events[1]["summary"]["lastEpoch"], 2);
    assert_eq!(events[1]["summary"]["metrics"]["loss/train"]["count"], 6);
    assert_eq!(events[1]["summary"]["artifacts"][0]["kind"], "confusion-matrix");
}

#[test]
fn images_also_save_sample_predictions() {
    let emitter = Emitter::new(false);
    let (mut session, _) = images(&emitter, &root(1, 0), 2);
    assert_eq!(
        drive(&mut session, &[0.5], None),
        vec![
            "train 1: 0..1", "train 1: 1..2", "validate 1", "r1/artifacts/cm-epoch1.json",
            "r1/artifacts/samples-epoch1.png", "r1/checkpoints/best.json", "end 1",
        ]
    );
    let events = appended(&session.finish());
    assert_eq!(events[1]["summary"]["artifacts"][1], value("{\"kind\":\"image-grid\",\"path\":\"/abs/grid\"}"));
}

#[test]
fn sample_predictions_that_fail_leave_no_artifact() {
    let emitter = Emitter::new(false);
    let (mut session, _) = images(&emitter, &root(1, 9), 1);
    session.next_task();
    session.trained(metric(1.0));
    session.next_task();
    session.validated(metric(1.0), metric(0.5), None);
    session.next_task();
    session.matrix_saved("/abs/cm");
    assert!(matches!(session.next_task(), Task::SaveGrid { .. }));
    assert!(session.grid_saved(None).is_empty());
    assert!(matches!(session.next_task(), Task::SaveCheckpoint { .. }));
}

#[test]
fn a_cancelled_run_keeps_the_last_checkpoint() {
    let emitter = Emitter::new(false);
    let (mut session, _) = tabular(&emitter, &root(3, 3), 7);
    let names = drive(&mut session, &[0.5], Some(8));
    assert_eq!(names.last().unwrap(), "train 2: 6..7");
    assert_eq!(names.iter().filter(|n| n.ends_with("best.json")).count(), 1);
    let events = appended(&session.finish());
    assert_eq!(events[1]["status"], "cancelled");
    assert_eq!(events[1]["summary"]["lastEpoch"], 1);
}

#[test]
fn a_run_that_is_cancelled_late_finishes_its_epoch() {
    let emitter = Emitter::new(false);
    let (mut session, _) = tabular(&emitter, &root(3, 3), 7);
    let names = drive(&mut session, &[0.5], Some(5));
    assert_eq!(names.last().unwrap(), "end 1");
}

#[test]
fn the_best_loss_is_the_least() {
    let emitter = Emitter::new(false);
    let (mut session, _) = tabular(&emitter, &root(5, 9), 1);
    let names = drive(&mut session, &[f64::NAN, 2.0, f64::INFINITY, 2.0, 0.125], None);
    assert_eq!(names.iter().filter(|n| n.ends_with("best.json")).count(), 2);
    assert_eq!(appended(&session.finish())[0]["msg"], "best val loss: 0.1250");
    let (mut session, _) = tabular(&emitter, &root(1, 9), 1);
    drive(&mut session, &[f64::INFINITY], None);
    assert_eq!(appended(&session.finish())[0]["msg"], "best val loss: inf");
}

#[test]
fn a_validation_is_recorded() {
    let emitter = Emitter::new(false);
    let (mut session, _) = tabular(&emitter, &root(1, 9), 1);
    session.next_task();
    session.trained(metric(1.0));
    assert!(matches!(session.next_task(), Task::Validate { epoch: 1 }));
    assert_eq!(session.predicted(&[0, 0, 0, 1, 1, 1, 1, 1], &[0, 0, 0, 0, 1, 1, 1, 1]), 7);
    let effects = session.validated(metric(0.5), metric(0.75), Some(metric(12.5)));
    let events = appended(&effects);
    let names: Vec<&str> = events.iter().map(|e| e["name"].as_str().unwrap()).collect();
    assert_eq!(names, vec!["loss/val", "acc/val", "mem/gpu_mb"]);
    let steps: Vec<u64> = events.iter().map(|e| e["step"].as_u64().unwrap()).collect();
    assert_eq!(steps, vec![2, 2, 3]);
    match session.next_task() {
        Task::SaveMatrix { text, .. } => {
            assert_eq!(text, "{\"labels\":[\"a\",\"b\"],\"matrix\":[[3,1],[0,4]]}");
        }
        _ => panic!("no matrix"),
    }
    session.matrix_saved("/abs/cm");
    match session.next_task() {
        Task::SaveCheckpoint { text, .. } => assert_eq!(
            value(&text),
            value(
                "{\"classes\":[\"a\",\"b\"],\"features\":[\"x1\",\"x2\"],\"hidden\":[8,4],\
                 \"mean\":[0.5,1.5],\"std\":[1.0,2.0]}"
            )
        ),
        _ => panic!("no checkpoint"),
    }
}

#[test]
fn an_image_checkpoint_holds_the_model() {
    let emitter = Emitter::new(false);
    let (mut session, _) = images(&emitter, &root(1, 9), 0);
    assert!(matches!(session.next_task(), Task::Validate { .. }));
    session.validated(metric(0.5), metric(0.75), None);
    session.next_task();
    session.matrix_saved("/abs/cm");
    session.next_task();
    session.grid_saved(None);
    match session.next_task() {
        Task::SaveCheckpoint { text, .. } => assert_eq!(
            value(&text),
            value("{\"classes\":[\"a\",\"b\"],\"img_size\":[24,32],\"conv1\":16,\"conv2\":32,\"hidden\":8}")
        ),
        _ => panic!("no checkpoint"),
    }
}

#[test]
fn no_epochs_no_training() {
    let emitter = Emitter::new(false);
    let (mut session, _) = tabular(&emitter, &root(0, 9), 5);
    assert!(matches!(session.next_task(), Task::Finish));
    let events = appended(&session.finish());
    assert_eq!(events[0]["msg"], "best val loss: inf");
    assert_eq!(events[1]["status"], "ok");
}

#[test]
fn a_pause_takes_effect_at_the_end_of_an_epoch() {
    let emitter = Emitter::new(true);
    let (mut session, _) = tabular(&emitter, &root(2, 9), 1);
    session.control_line("{\"cmd\":\"pause\"}");
    assert!(matches!(session.next_task(), Task::Train { .. }));
    session.trained(metric(1.0));
    assert!(matches!(session.next_task(), Task::Validate { .. }));
    session.validated(metric(f64::NAN), metric(0.5), None);
    assert!(matches!(session.next_task(), Task::SaveMatrix { .. }));
    session.matrix_saved("/abs/cm");
    assert!(matches!(session.next_task(), Task::EndEpoch { epoch: 1 }));
    assert_eq!(session.epoch_ended().0, Gate::Closing);
    for line in ["{\"cmd\":\"pause\"}", "{\"cmd\":\"other\"}", "no command"] {
        session.control_line(line);
        assert!(matches!(session.next_task(), Task::EndEpoch { epoch: 1 }));
        let (gate, effects) = session.epoch_ended();
        assert_eq!((gate, effects.len()), (Gate::Closed, 0));
    }
    session.control_line("{\"cmd\":\"resume\"}");
    let (gate, effects) = session.epoch_ended();
    assert_eq!((gate, appended(&effects)[0]["ev"].as_str()), (Gate::Open, Some("epoch")));
    assert!(matches!(session.next_task(), Task::Train { epoch: 2, start: 0, end: 1 }));
}

#[test]
fn cancelling_ends_a_pause() {
    let emitter = Emitter::new(true);
    let (mut session, _) = tabular(&emitter, &root(2, 9), 0);
    session.next_task();
    session.validated(metric(f64::NAN), metric(0.5), None);
    session.matrix_saved("/abs/cm");
    session.control_line("{\"cmd\":\"pause\"}");
    assert_eq!(session.epoch_ended().0, Gate::Closing);
    session.control_line("{\"cmd\":\"cancel\"}");
    assert_eq!(session.epoch_ended().0, Gate::Open);
    assert!(matches!(session.next_task(), Task::Finish));
    assert_eq!(appended(&session.finish())[1]["status"], "cancelled");
}

#[test]
fn the_same_answers_give_the_same_run() {
    let emitter = Emitter::new(false);
    let course = || {
        let (mut session, mut effects) = tabular(&emitter, &root(1, 2), 3);
        for loss in [0.5, 0.25] {
            session.next_task();
            effects.append(&mut session.trained(metric(loss)));
        }
        session.next_task();
        session.predicted(&[0, 1], &[0, 0]);
        effects.append(&mut session.validated(metric(0.75), metric(0.5), None));
        effects.append(&mut session.matrix_saved("/abs/cm"));
        session.checkpoint_saved();
        effects.append(&mut session.epoch_ended().1);
        assert!(matches!(session.next_task(), Task::Finish));
        appended(&effects).into_iter().filter(|e| e["ev"] == "metric").collect::<Vec<_>>()
    };
    let first = course();
    assert_eq!(first, course());
    let told: Vec<(u64, &str, f64)> = first
        .iter()
        .map(|e| (e["step"].as_u64().unwrap(), e["name"].as_str().unwrap(), e["value"].as_f64().unwrap()))
        .collect();
    assert_eq!(
        told,
        vec![(1, "loss/train", 0.5), (2, "loss/train", 0.25), (3, "loss/val", 0.75), (3, "acc/val", 0.5)]
    );
}

#[test]
fn batches_follow_one_another() {
    assert_eq!(batches(7, 3), vec![(0, 3), (3, 6), (6, 7)]);
    assert_eq!(batches(6, 3), vec![(0, 3), (3, 6)]);
    assert_eq!(batches(2, 0), vec![(0, 1), (1, 2)]);
    assert_eq!(batches(2, usize::MAX), vec![(0, 2)]);
    assert!(batches(0, 4).is_empty());
}

#[test]
fn a_schedule_begins_with_the_first_batch() {
    let s = Schedule::new(2, 5, 0, false);
    assert_eq!((s.epoch, s.batch, s.stage), (1, 1, Stage::Batches(0)));
    let s = Schedule::new(0, 5, 4, true);
    assert_eq!((s.epoch, s.batch, s.stage), (0, 4, Stage::Done));
}
