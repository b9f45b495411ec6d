//! The configuration of a project, as `train.toml` declares it.
use vstd::prelude::*;

use crate::scalar::Real;

verus! {

/// The `[train]` table.
pub struct TrainCfg {
    pub epochs: u32,
    pub batch_size: usize,
    pub lr: Real,
    pub val_split: Real,
    pub seed: u64,
    pub samples: usize,
    pub device: String,
}

impl Default for TrainCfg {
    /// What applies where the table leaves a key out: a learning rate of 0.05
    /// and a fifth of the rows for validation among them.
    fn default() -> (r: Self)
        ensures
            r.epochs == 30,
            r.batch_size == 16,
            r.lr.bits == 0x3FA9_9999_9999_999A,
            r.val_split.bits == 0x3FC9_9999_9999_999A,
            r.seed == 42,
            r.samples == 240,
            r.device@ == "auto"@,
    {
        TrainCfg {
            epochs: 30,
            batch_size: 16,
            lr: Real { bits: 0x3FA9_9999_9999_999A },
            val_split: Real { bits: 0x3FC9_9999_9999_999A },
            seed: 42,
            samples: 240,
            device: "auto".to_string(),
        }
    }
}

/// The `[data]` table.
pub struct DataCfg {
    pub path: Option<String>,
    pub target: Option<String>,
}

impl Default for DataCfg {
    fn default() -> (r: Self)
        ensures
            r.path is None,
            r.target is None,
    {
        DataCfg { path: None, target: None }
    }
}

/// `[model] hidden`: one width, or the widths of all hidden layers.
#[derive(Clone, Debug)]
pub enum HiddenSpec {
    Scalar(usize),
    Layers(Vec<usize>),
}

impl Default for HiddenSpec {
    fn default() -> (r: Self)
        ensures
            r == HiddenSpec::Scalar(16),
    {
        HiddenSpec::Scalar(16)
    }
}

impl HiddenSpec {
    /// The widths of the hidden layers.
    pub open spec fn widths(&self) -> Seq<usize> {
        match self {
            HiddenSpec::Scalar(n) => seq![*n],
            HiddenSpec::Layers(v) => v@,
        }
    }

    /// The widths of the hidden layers; none of them means a bare linear
    /// classifier.
    pub fn layers(&self) -> (r: Vec<usize>)
        ensures
            r@ == self.widths(),
    {
        match self {
            HiddenSpec::Scalar(n) => {
                let r: Vec<usize> = vec![*n];
                assert(r@ =~= seq![*n]);
                r
            },
            HiddenSpec::Layers(v) => {
                let mut r: Vec<usize> = Vec::new();
                let mut i: usize = 0;
                while i < v.len()
                    invariant
                        i <= v@.len(),
                        r@ == v@.take(i as int),
                    decreases v@.len() - i,
                {
                    r.push(v[i]);
                    i += 1;
                    assert(v@.take(i as int) =~= v@.take(i - 1).push(v@[i - 1]));
                }
                assert(v@.take(i as int) =~= v@);
                r
            },
        }
    }

    /// The width of the dense layer of the image model: the first width, or 64
    /// where there is none.
    pub fn dense(&self) -> (r: usize)
        ensures
            r == if self.widths().len() > 0 {
                self.widths()[0]
            } else {
                64
            },
    {
        match self {
            HiddenSpec::Scalar(n) => *n,
            HiddenSpec::Layers(v) => if v.len() > 0 {
                v[0]
            } else {
                64
            },
        }
    }
}

/// The `[model]` table.
pub struct ModelCfg {
    pub hidden: HiddenSpec,
    /// Channels of the first convolution of the image model.
    pub conv1: usize,
    /// Channels of the second convolution of the image model.
    pub conv2: usize,
}

impl Default for ModelCfg {
    fn default() -> (r: Self)
        ensures
            r.hidden == HiddenSpec::Scalar(16),
            r.conv1 == 16,
            r.conv2 == 32,
    {
        ModelCfg { hidden: HiddenSpec::Scalar(16), conv1: 16, conv2: 32 }
    }
}

/// The whole configuration.
pub struct Root {
    pub train: TrainCfg,
    pub data: DataCfg,
    pub model: ModelCfg,
}

impl Root {
    /// Whether this is what applies where nothing is configured.
    pub open spec fn is_default(&self) -> bool {
        &&& self.train.epochs == 30
        &&& self.train.batch_size == 16
        &&& self.train.lr.bits == 0x3FA9_9999_9999_999A
        &&& self.train.val_split.bits == 0x3FC9_9999_9999_999A
        &&& self.train.seed == 42
        &&& self.train.samples == 240
        &&& self.train.device@ == "auto"@
        &&& self.data.path is None
        &&& self.data.target is None
        &&& self.model.hidden == HiddenSpec::Scalar(16)
        &&& self.model.conv1 == 16
        &&& self.model.conv2 == 32
    }
}

impl Default for Root {
    fn default() -> (r: Self)
        ensures
            r.is_default(),
    {
        Root {
            train: TrainCfg::default(),
            data: DataCfg::default(),
            model: ModelCfg::default(),
        }
    }
}

/// The configuration that was read, or the default where none could be.
pub fn load_root(parsed: Option<Root>) -> (r: Root)
    ensures
        match parsed {
            Some(root) => r == root,
            None => r.is_default(),
        },
{
    match parsed {
        Some(root) => root,
        None => Root::default(),
    }
}

/// What applies where nothing is configured: thirty epochs in batches of sixteen,
/// a fifth of the rows for validation, one hidden layer, built-in data, and the GPU
/// where there is one.
pub proof fn law_default_configuration(root: Root)
    requires
        root.is_default(),
    ensures
        root.train.epochs == 30,
        root.train.batch_size == 16,
        root.train.lr.bits == 0x3FA9_9999_9999_999A,
        root.train.val_split.bits == 0x3FC9_9999_9999_999A,
        root.train.seed == 42,
        root.train.samples == 240,
        root.train.device@ == "auto"@,
        root.data.path is None,
        root.data.target is None,
        root.model.hidden.widths() == seq![16usize],
        root.model.conv1 == 16,
        root.model.conv2 == 32,
{
}

/// A single width is one hidden layer, and a list has one for each of its widths.
pub proof fn law_hidden_layers(n: usize, list: Vec<usize>)
    ensures
        HiddenSpec::Scalar(n).widths() == seq![n],
        HiddenSpec::Layers(list).widths() == list@,
{
}

} // verus!
