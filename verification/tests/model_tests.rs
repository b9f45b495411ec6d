use nexis_ml::config::Root;
use nexis_ml::model::{
    confusion, has_image_ext, layer_shapes, probes_gpu, train, want_gpu, PathKind, Source,
};
use nexis_ml::paths::{extension_of, file_name_of, replace_extension};
use nexis_ml::protocol::{Emitter, Stream};

#[test]
fn confusion_counts_and_accuracy() {
    let preds = [0i64, 1, 1, 0];
    let targets = [0usize, 1, 0, 0];
    let (cm, correct) = confusion(&preds, &targets, 2);
    assert_eq!(correct, 3);
    // rows = actual, cols = predicted
    assert_eq!(cm[0], vec![2, 1]);
    assert_eq!(cm[1], vec![0, 1]);
}

#[test]
fn a_class_without_a_place_is_left_out() {
    let (cm, correct) = confusion(&[5, -1, 0, 1], &[5, 0, 3, 1, 0], 2);
    assert_eq!(correct, 1);
    assert_eq!(cm, vec![vec![0, 0], vec![0, 1]]);
    assert_eq!(confusion(&[5], &[5], 2), (vec![vec![0, 0], vec![0, 0]], 0));
    let (cm, correct) = confusion(&[], &[], 0);
    assert!(cm.is_empty());
    assert_eq!(correct, 0);
}

#[test]
fn the_matrix_adds_up() {
    let preds: Vec<i64> = (0..60).map(|i| (i * 7) % 4).collect();
    let targets: Vec<usize> = (0..60).map(|i| (i * 5) % 3).collect();
    let (cm, correct) = confusion(&preds, &targets, 4);
    let diagonal: u32 = (0..4).map(|i| cm[i][i]).sum();
    assert_eq!(diagonal as usize, correct);
    for (class, row) in cm.iter().enumerate() {
        let size = targets.iter().filter(|t| **t == class).count();
        assert_eq!(row.iter().sum::<u32>() as usize, size);
    }
    let (cm, correct) = confusion(&preds, &targets, 2);
    assert_eq!((cm[0][0] + cm[1][1]) as usize, correct);
}

#[test]
fn layers_form_a_chain() {
    assert_eq!(layer_shapes(3, &vec![64, 32], 2), vec![(3, 64), (64, 32), (32, 2)]);
    assert_eq!(layer_shapes(3, &Vec::new(), 2), vec![(3, 2)]);
}

#[test]
fn image_ext_detection_is_case_insensitive() {
    assert!(has_image_ext("a/b.PNG"));
    assert!(has_image_ext("x.jpeg"));
    assert!(!has_image_ext("x.csv"));
    assert!(!has_image_ext("noext"));
}

#[test]
fn image_files_by_their_names() {
    for name in ["x.jpg", "x.bmp", "dir.d/x.y.JpEg", "x.png/"] {
        assert!(has_image_ext(name), "{name}");
    }
    for name in [".png", "png", "a.png/b", "..", "", "x.pngx", "x."] {
        assert!(!has_image_ext(name), "{name}");
    }
}

#[test]
fn parts_of_a_path() {
    assert_eq!(file_name_of("a/b.c").as_deref(), Some("b.c"));
    assert_eq!(file_name_of("a/b/./").as_deref(), Some("b"));
    assert_eq!(file_name_of("a/.."), None);
    assert_eq!(file_name_of("/"), None);
    assert_eq!(extension_of("a.tar.gz").as_deref(), Some("gz"));
    assert_eq!(extension_of(".hidden"), None);
    assert_eq!(extension_of("a.").as_deref(), Some(""));
    assert_eq!(replace_extension("config.json", "json.tmp"), "config.json.tmp");
    assert_eq!(replace_extension("plain", "x"), "plain.x");
    assert_eq!(replace_extension("a.b/model", "onnx.tmp"), "a.b/model.onnx.tmp");
    assert_eq!(replace_extension("a.b/m.onnx", "onnx.tmp"), "a.b/m.onnx.tmp");
    assert_eq!(replace_extension("a/b.c/./", "x"), "a/b.x");
    assert_eq!(replace_extension("/a.b", ""), "/a");
    for path in ["..", "", "a/..", "/", "."] {
        assert_eq!(replace_extension(path, "x"), path);
    }
    for path in ["a.b/model", "a/b.c/./", "/a.b", "x", ".x"] {
        assert_eq!(replace_extension(path, "x.y"), std::path::Path::new(path).with_extension("x.y").to_str().unwrap());
    }
}

#[test]
fn devices_and_their_words() {
    let e = Emitter::new(false);
    for word in ["cpu", " CPU ", "tpu"] {
        assert!(!probes_gpu(word));
        assert!(!want_gpu(word, true, &e).0);
    }
    for word in ["gpu", "CUDA", " wgpu\t", "auto", "", "  "] {
        assert!(probes_gpu(word));
        assert!(want_gpu(word, true, &e).0);
        assert!(want_gpu(word, true, &e).1.is_none());
        assert!(!want_gpu(word, false, &e).0);
    }
}

#[test]
fn a_wish_that_is_not_granted_is_noted() {
    let e = Emitter::new(true);
    let note = "note: device \"gpu\" requested but no compatible GPU adapter found — using CPU\n";
    assert_eq!(want_gpu("cuda", false, &e), (false, Some((Stream::Stderr, note.to_string()))));
    assert_eq!(want_gpu("auto", false, &e), (false, None));
    assert_eq!(want_gpu("cpu", false, &e), (false, None));
    let note = "note: unknown device \"tpu\" — using CPU\n";
    assert_eq!(
        want_gpu(" TPU", true, &Emitter::new(false)),
        (false, Some((Stream::Stdout, note.to_string())))
    );
}

#[test]
fn the_data_path_chooses_the_model() {
    let e = Emitter::new(false);
    let mut root = Root::default();
    assert!(matches!(train(&root, PathKind::Missing, false, &e).source, Source::Synthetic));
    root.data.path = Some("d".to_string());
    assert!(matches!(train(&root, PathKind::Missing, false, &e).source, Source::Synthetic));
    match train(&root, PathKind::Directory, true, &e) {
        plan => {
            assert!(plan.gpu && plan.note.is_none());
            assert_eq!(plan.device_label(), "gpu");
            assert!(matches!(plan.source, Source::Images { path } if path == "d"));
        }
    }
    match train(&root, PathKind::File, false, &e).source {
        Source::Csv { path, target } => assert_eq!((path.as_str(), target.as_str()), ("d", "label")),
        _ => panic!("not a table"),
    }
    root.data.target = Some("y".to_string());
    root.train.device = "quantum".to_string();
    let plan = train(&root, PathKind::File, true, &e);
    assert!(!plan.gpu);
    assert_eq!(plan.device_label(), "cpu");
    assert_eq!(plan.note, Some((Stream::Stdout, "note: unknown device \"quantum\" — using CPU\n".to_string())));
    assert!(matches!(plan.source, Source::Csv { target, .. } if target == "y"));
}
