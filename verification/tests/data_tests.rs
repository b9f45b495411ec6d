use nexis_ml::config::{load_root, DataCfg, HiddenSpec, ModelCfg, Root, TrainCfg};
use nexis_ml::data::{
    load_csv, prepare, prepare_images, read_table, shuffle_split, synthetic, synthetic_draws, CsvError,
    Dataset, Table,
};
use nexis_ml::rng::{shuffle_rows, Rng};
use nexis_ml::scalar::Real;
use nexis_ml::text::{
    ascii_lowered, decimal_string, joined, less, sorted, split, trimmed,
};

fn strings(list: &[&str]) -> Vec<String> {
    list.iter().map(|s| s.to_string()).collect()
}

fn numbers(table: &Table) -> Vec<Vec<Option<f32>>> {
    table
        .rows
        .iter()
        .map(|row| row.iter().map(|cell| cell.parse::<f32>().ok()).collect())
        .collect()
}

fn load(csv: &str, target: &str) -> Result<Dataset<f32>, CsvError> {
    let table = read_table(csv)?;
    load_csv(&table, &numbers(&table), 0.0, target)
}

fn number(v: f64) -> Real {
    Real { bits: v.to_bits() }
}

#[test]
fn load_csv_parses_features_and_classes() {
    let ds = load("x1,x2,label\n0.1,0.2,a\n0.3,0.4,b\n0.5,0.6,a\n", "label").unwrap();
    assert_eq!(ds.feature_names, vec!["x1", "x2"]);
    assert_eq!(ds.classes, vec!["a", "b"]);
    assert_eq!(ds.y, vec![0, 1, 0]);
    assert_eq!(ds.x.len(), 3);
}

#[test]
fn csv_keeps_the_numbers_and_skips_what_is_none() {
    let csv = "\n name , y ,x\r\nann, no , 1.5\r\n   \r\nbob,yes,oops\nbob,yes\n";
    let ds = load(csv, "y").unwrap();
    assert_eq!(ds.feature_names, vec!["x"]);
    assert_eq!(ds.classes, vec!["no", "yes"]);
    assert_eq!(ds.y, vec![0, 1, 1]);
    assert_eq!(ds.x, vec![vec![1.5], vec![0.0], vec![0.0]]);
}

#[test]
fn a_short_row_belongs_to_the_first_class() {
    let ds = load("x,label\n1,b\n2,a\n3\n", "label").unwrap();
    assert_eq!(ds.classes, vec!["a", "b"]);
    assert_eq!(ds.y, vec![1, 0, 0]);
}

#[test]
fn csv_errors_and_their_messages() {
    let header = strings(&["x", "label"]);
    let cases = [
        ("", "label", CsvError::Empty, "d.csv is empty"),
        (" \n\n", "label", CsvError::Empty, "d.csv is empty"),
        ("x,label\n1,a\n", "y", CsvError::MissingTarget, "target column 'y' not in [\"x\", \"label\"]"),
        ("x,label\n", "label", CsvError::NoRows, "no data rows in d.csv"),
        ("x,label\nq,a\n", "label", CsvError::NoFeatures, "no numeric feature columns found"),
        ("x,label\n1,a\n2,a\n", "label", CsvError::TooFewClasses, "need at least 2 distinct target classes"),
    ];
    for (csv, target, error, message) in cases {
        assert_eq!(load(csv, target).err(), Some(error));
        assert_eq!(error.message("d.csv", target, &header), message);
    }
}

#[test]
fn the_generator_is_splitmix64() {
    let mut rng = Rng { state: 0 };
    assert_eq!(rng.next_u64(), 0xe220_a839_7b1d_cdaf);
    assert_eq!(rng.next_u64(), 0x6e78_9e6a_a1b9_65f4);
    assert_eq!(rng.next_u64(), 0x06c4_5d18_8009_454f);
    let mut rng = Rng { state: 42 };
    let below: Vec<usize> = (0..5).map(|_| rng.below(10)).collect();
    assert_eq!(below, vec![3, 1, 8, 4, 0]);
    let mut rng = Rng { state: 42 };
    assert_eq!(rng.gauss_bits(), (6_679_422_623_415_661, 1_440_344_771_546_334));
}

#[test]
fn a_shuffle_is_fixed_by_its_seed() {
    let mut x: Vec<String> = (0..6).map(|i| format!("r{i}")).collect();
    let mut y: Vec<usize> = (0..6).collect();
    shuffle_rows(&mut x, &mut y, 42 ^ 0xABCD);
    assert_eq!(y, vec![3, 5, 4, 1, 0, 2]);
    assert_eq!(x, vec!["r3", "r5", "r4", "r1", "r0", "r2"]);
}

#[test]
fn a_split_keeps_every_row_with_its_label() {
    let x: Vec<usize> = (0..10).collect();
    let y: Vec<usize> = (0..10).map(|i| i * 10).collect();
    let split = shuffle_split(x, y, 42, 3);
    assert_eq!(split.val_x, vec![8, 9, 3]);
    assert_eq!(split.train_x, vec![5, 4, 0, 7, 1, 2, 6]);
    for (a, b) in split.val_x.iter().zip(&split.val_y).chain(split.train_x.iter().zip(&split.train_y)) {
        assert_eq!(a * 10, *b);
    }
    let mut all: Vec<usize> = split.val_x.iter().chain(&split.train_x).copied().collect();
    all.sort();
    assert_eq!(all, (0..10).collect::<Vec<usize>>());
}

#[test]
fn one_row_validates_at_least() {
    let data = Dataset {
        x: vec![vec![1], vec![2], vec![3]],
        y: vec![0, 1, 0],
        feature_names: strings(&["f"]),
        classes: strings(&["a", "b"]),
    };
    let p = prepare(data, 42, 0);
    assert_eq!(p.split.val_x.len(), 1);
    assert_eq!(p.split.train_x.len(), 2);
    assert_eq!(p.feature_names, vec!["f"]);
    assert_eq!(p.classes, vec!["a", "b"]);
}

#[test]
fn one_image_is_left_to_train_on() {
    let p = prepare_images(vec![10, 20, 30], vec![0, 1, 1], strings(&["a", "b"]), 4, 5, 42, 99);
    assert_eq!(p.split.val_x.len(), 2);
    assert_eq!(p.split.train_x.len(), 1);
    assert_eq!((p.height, p.width), (4, 5));
    let p = prepare_images(vec![10, 20, 30], vec![0, 1, 1], strings(&["a", "b"]), 4, 5, 42, 0);
    assert_eq!(p.split.val_x.len(), 1);
    let p = prepare_images(vec![10], vec![0], strings(&["a", "b"]), 4, 5, 42, 0);
    assert_eq!((p.split.val_x.len(), p.split.train_x.len()), (0, 1));
}

#[test]
fn built_in_points_take_turns() {
    let d = synthetic(vec![vec![1], vec![2], vec![3]]);
    assert_eq!(d.y, vec![0, 1, 0]);
    assert_eq!(d.x, vec![vec![1], vec![2], vec![3]]);
    assert_eq!(d.feature_names, vec!["x1", "x2", "noise"]);
    assert_eq!(d.classes, vec!["0", "1"]);
    let draws = synthetic_draws(42, 2);
    assert_eq!(draws.len(), 2);
    assert_eq!(
        draws[0],
        vec![
            (6_679_422_623_415_661, 1_440_344_771_546_334),
            (2_509_415_892_804_083, 3_100_194_365_360_476),
            (342_545_305_733_380, 7_820_303_284_015_131),
        ]
    );
}

#[test]
fn hidden_spec_accepts_scalar_and_list() {
    let hidden = |text: &str| -> HiddenSpec {
        let table: toml::Table = text.parse().unwrap();
        match &table["hidden"] {
            toml::Value::Integer(n) => HiddenSpec::Scalar(*n as usize),
            toml::Value::Array(list) => HiddenSpec::Layers(
                list.iter().map(|v| v.as_integer().unwrap() as usize).collect(),
            ),
            other => panic!("{other:?}"),
        }
    };
    let scalar = hidden("hidden = 32");
    assert_eq!(scalar.layers(), vec![32]);
    let list = hidden("hidden = [64, 16]");
    assert_eq!(list.layers(), vec![64, 16]);
    // default is a single hidden layer
    assert_eq!(HiddenSpec::default().layers(), vec![16]);
}

#[test]
fn the_dense_layer_takes_the_first_width() {
    assert_eq!(HiddenSpec::Scalar(32).dense(), 32);
    assert_eq!(HiddenSpec::Layers(vec![48, 16]).dense(), 48);
    assert_eq!(HiddenSpec::Layers(Vec::new()).dense(), 64);
    assert_eq!(HiddenSpec::Layers(Vec::new()).layers(), Vec::<usize>::new());
}

#[test]
fn what_is_not_configured_has_a_default() {
    let root = load_root(None);
    assert_eq!(root.train.epochs, 30);
    assert_eq!(root.train.batch_size, 16);
    assert_eq!(f64::from_bits(root.train.lr.bits), 0.05);
    assert_eq!(f64::from_bits(root.train.val_split.bits), 0.2);
    assert_eq!((root.train.seed, root.train.samples), (42, 240));
    assert_eq!(root.train.device, "auto");
    assert!(root.data.path.is_none() && root.data.target.is_none());
    assert_eq!((root.model.conv1, root.model.conv2), (16, 32));
    let mut own = Root {
        train: TrainCfg::default(),
        data: DataCfg::default(),
        model: ModelCfg::default(),
    };
    own.train.epochs = 3;
    assert_eq!(load_root(Some(own)).train.epochs, 3);
}

#[test]
fn numbers_are_ordered_by_value() {
    let list = [f64::NEG_INFINITY, -2.0, -0.5, 0.0, 1e-300, 0.25, 1.5, f64::INFINITY];
    for a in list {
        for b in list {
            assert_eq!(number(a).less(number(b)), a < b);
        }
    }
    assert!(!number(-0.0).less(number(0.0)) && !number(0.0).less(number(-0.0)));
    assert_eq!(f64::from_bits(Real::infinity().bits), f64::INFINITY);
}

#[test]
fn what_is_not_a_number_is_never_less() {
    let nan = number(f64::NAN);
    assert!(nan.nan() && !number(1.0).nan() && !Real::infinity().nan());
    assert!(!nan.less(number(1.0)) && !number(1.0).less(nan));
}

#[test]
fn texts_are_split_trimmed_and_joined() {
    assert_eq!(split("a,,b", ','), vec!["a", "", "b"]);
    assert_eq!(split("", ','), vec![""]);
    assert_eq!(trimmed(" \t a b\u{a0}\r\n"), "a b");
    assert_eq!(trimmed("  "), "");
    assert_eq!(ascii_lowered("GPÜ"), "gpÜ");
    assert_eq!(joined(&strings(&["a", "b"]), "  "), "a  b");
    assert_eq!(joined(&Vec::new(), "  "), "");
    assert_eq!(decimal_string(0), "0");
    assert_eq!(decimal_string(u64::MAX), "18446744073709551615");
}

#[test]
fn white_space_is_that_of_unicode() {
    for n in 0..0x1_1000u32 {
        let Some(c) = char::from_u32(n) else { continue };
        let listed = matches!(n,
            0x09..=0x0d | 0x20 | 0x85 | 0xa0 | 0x1680 | 0x2000..=0x200a
                | 0x2028 | 0x2029 | 0x202f | 0x205f | 0x3000);
        assert_eq!(trimmed(&c.to_string()).is_empty(), listed, "{n:x}");
    }
}

#[test]
fn a_feature_is_a_column_that_begins_with_a_number() {
    let ds = load("a,b,label,c\n1,x,u,2\n3,4,v,5\n", "label").unwrap();
    assert_eq!(ds.feature_names, vec!["a", "c"]);
    assert_eq!(ds.x, vec![vec![1.0, 2.0], vec![3.0, 5.0]]);
    for (row, label) in ds.x.iter().zip(&ds.y) {
        assert_eq!(row.len(), ds.feature_names.len());
        assert!(*label < ds.classes.len());
    }
}

#[test]
fn texts_sort_as_strings_do() {
    let list = strings(&["b", "a", "ab", "", "é", "Z", "a", "\u{10000}", "\u{ffff}"]);
    let mut expected = list.clone();
    expected.sort();
    assert_eq!(sorted(&list), expected);
    for a in &list {
        for b in &list {
            assert_eq!(less(a, b), a < b);
        }
    }
}
