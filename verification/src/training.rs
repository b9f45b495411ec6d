//! The course of a training run: which batch, validation or file comes next,
//! what is recorded of each, and when the run ends.
use vstd::prelude::*;
use vstd::string::StringExecFns;

use crate::config::Root;
use crate::harness;
use crate::harness::{Effect, Gate, MetricValue, Run};
use crate::json;
use crate::model;
use crate::protocol::Emitter;
use crate::run_store;
use crate::run_store::RunDir;
use crate::scalar::Real;
use crate::text;

verus! {

// ---------------------------------------------------------------------------
// The schedule.
// ---------------------------------------------------------------------------

/// Where a training run stands within an epoch.
#[derive(Clone, Copy, Debug, PartialEq, Eq, Structural)]
pub enum Stage {
    /// The rows before this one are trained on.
    Batches(usize),
    /// The validation rows are to be predicted.
    Validation,
    /// The confusion matrix is to be saved; whether the loss is the best so far.
    Matrix(bool),
    /// The grid of sample predictions is to be saved; whether the loss is the
    /// best so far.
    Grid(bool),
    /// The checkpoint is to be saved.
    Checkpoint,
    /// The epoch is to end; whether the run waits there.
    Boundary(bool),
    /// Nothing is left to do.
    Done,
}

/// The course of a training run.
#[derive(Clone, Copy, Debug, PartialEq, Eq, Structural)]
pub struct Schedule {
    pub epochs: u32,
    /// How many rows there are to train on.
    pub rows: usize,
    /// How many of them make a batch.
    pub batch: usize,
    /// Whether each epoch shows sample predictions.
    pub images: bool,
    pub epoch: u32,
    pub stage: Stage,
}

/// The first row after the batch that begins at `start`.
pub open spec fn batch_end(rows: int, batch: int, start: int) -> int {
    if start + batch < rows {
        start + batch
    } else {
        rows
    }
}

impl Schedule {
    pub open spec fn wf(&self) -> bool {
        &&& self.batch >= 1
        &&& self.epoch <= self.epochs
        &&& self.stage != Stage::Done ==> self.epoch >= 1
        &&& match self.stage {
            Stage::Batches(start) => start <= self.rows,
            Stage::Grid(_) => self.images,
            _ => true,
        }
    }

    /// The beginning of a run.
    pub open spec fn beginning(
        epochs: u32,
        rows: usize,
        batch_size: usize,
        images: bool,
    ) -> Schedule {
        Schedule {
            epochs,
            rows,
            batch: if batch_size < 1 {
                1
            } else {
                batch_size
            },
            images,
            epoch: if epochs == 0 {
                0
            } else {
                1
            },
            stage: if epochs == 0 {
                Stage::Done
            } else {
                Stage::Batches(0)
            },
        }
    }

    /// The schedule at another stage.
    pub open spec fn at(self, stage: Stage) -> Schedule {
        Schedule { stage, ..self }
    }

    /// After the last batch of an epoch the validation follows, unless the run
    /// was cancelled.
    pub open spec fn settled(self, cancelled: bool) -> Schedule {
        if self.stage == Stage::Batches(self.rows) {
            self.at(
                if cancelled {
                    Stage::Done
                } else {
                    Stage::Validation
                },
            )
        } else {
            self
        }
    }

    /// After a batch.
    pub open spec fn after_batch(self) -> Schedule {
        match self.stage {
            Stage::Batches(start) => self.at(
                Stage::Batches(
                    batch_end(self.rows as int, self.batch as int, start as int) as usize,
                ),
            ),
            _ => self,
        }
    }

    /// After what an epoch saves.
    pub open spec fn after_outputs(self, improved: bool) -> Schedule {
        self.at(
            if improved {
                Stage::Checkpoint
            } else {
                Stage::Boundary(false)
            },
        )
    }

    /// After the confusion matrix.
    pub open spec fn after_matrix(self) -> Schedule {
        match self.stage {
            Stage::Matrix(improved) => if self.images {
                self.at(Stage::Grid(improved))
            } else {
                self.after_outputs(improved)
            },
            _ => self,
        }
    }

    /// After the sample predictions.
    pub open spec fn after_grid(self) -> Schedule {
        match self.stage {
            Stage::Grid(improved) => self.after_outputs(improved),
            _ => self,
        }
    }

    /// After an epoch the next one follows, unless it was the last or the run
    /// was cancelled.
    pub open spec fn after_epoch(self, cancelled: bool) -> Schedule {
        if cancelled || self.epoch == self.epochs {
            self.at(Stage::Done)
        } else {
            Schedule { epoch: (self.epoch + 1) as u32, stage: Stage::Batches(0), ..self }
        }
    }

    /// The beginning of a run.
    pub fn new(epochs: u32, rows: usize, batch_size: usize, images: bool) -> (r: Schedule)
        ensures
            r == Schedule::beginning(epochs, rows, batch_size, images),
            r.wf(),
    {
        Schedule {
            epochs,
            rows,
            batch: if batch_size < 1 {
                1
            } else {
                batch_size
            },
            images,
            epoch: if epochs == 0 {
                0
            } else {
                1
            },
            stage: if epochs == 0 {
                Stage::Done
            } else {
                Stage::Batches(0)
            },
        }
    }

    /// The first row after the batch that begins at `start`.
    fn end_of(&self, start: usize) -> (r: usize)
        requires
            start <= self.rows,
        ensures
            r == batch_end(self.rows as int, self.batch as int, start as int),
    {
        if self.batch < self.rows - start {
            start + self.batch
        } else {
            self.rows
        }
    }

    fn settle(&mut self, cancelled: bool)
        requires
            old(self).wf(),
        ensures
            *final(self) == old(self).settled(cancelled),
            final(self).wf(),
    {
        match self.stage {
            Stage::Batches(start) => {
                if start == self.rows {
                    self.stage = if cancelled {
                        Stage::Done
                    } else {
                        Stage::Validation
                    };
                }
            },
            _ => {},
        }
    }

    fn pass_batch(&mut self)
        requires
            old(self).wf(),
        ensures
            *final(self) == old(self).after_batch(),
            final(self).wf(),
    {
        match self.stage {
            Stage::Batches(start) => {
                self.stage = Stage::Batches(self.end_of(start));
            },
            _ => {},
        }
    }

    fn pass_outputs(&mut self, improved: bool)
        requires
            old(self).wf(),
            old(self).epoch >= 1,
        ensures
            *final(self) == old(self).after_outputs(improved),
            final(self).wf(),
    {
        self.stage = if improved {
            Stage::Checkpoint
        } else {
            Stage::Boundary(false)
        };
    }

    fn pass_matrix(&mut self)
        requires
            old(self).wf(),
        ensures
            *final(self) == old(self).after_matrix(),
            final(self).wf(),
    {
        match self.stage {
            Stage::Matrix(improved) => {
                if self.images {
                    self.stage = Stage::Grid(improved);
                } else {
                    self.pass_outputs(improved);
                }
            },
            _ => {},
        }
    }

    fn pass_grid(&mut self)
        requires
            old(self).wf(),
        ensures
            *final(self) == old(self).after_grid(),
            final(self).wf(),
    {
        match self.stage {
            Stage::Grid(improved) => {
                self.pass_outputs(improved);
            },
            _ => {},
        }
    }

    fn pass_epoch(&mut self, cancelled: bool)
        requires
            old(self).wf(),
        ensures
            *final(self) == old(self).after_epoch(cancelled),
            final(self).wf(),
    {
        if cancelled || self.epoch == self.epochs {
            self.stage = Stage::Done;
        } else {
            self.epoch = self.epoch + 1;
            self.stage = Stage::Batches(0);
        }
    }

    /// How far the end is.
    pub open spec fn distance(self) -> nat {
        let left = match self.stage {
            Stage::Batches(start) => 6 + self.rows - start,
            Stage::Validation => 5,
            Stage::Matrix(_) => 4,
            Stage::Grid(_) => 3,
            Stage::Checkpoint => 2,
            Stage::Boundary(_) => 1,
            Stage::Done => 0,
        };
        if self.stage == Stage::Done {
            0
        } else {
            ((self.epochs - self.epoch) * (self.rows + 7) + left) as nat
        }
    }
}

/// The schedule after `k` batches of an epoch.
pub open spec fn after_batches(s: Schedule, k: nat) -> Schedule
    decreases k,
{
    if k == 0 {
        s
    } else {
        after_batches(s, (k - 1) as nat).after_batch()
    }
}

/// Where the `k`-th batch of an epoch begins.
pub open spec fn batch_start(rows: int, batch: int, k: int) -> int {
    if k * batch < rows {
        k * batch
    } else {
        rows
    }
}

/// The batches of an epoch follow one another without a gap, each of the full
/// size but the last, until every row was trained on.
pub proof fn law_batches_cover(s: Schedule, k: nat)
    requires
        s.wf(),
        s.stage == Stage::Batches(0),
    ensures
        after_batches(s, k) == s.at(
            Stage::Batches(batch_start(s.rows as int, s.batch as int, k as int) as usize),
        ),
        0 <= batch_start(s.rows as int, s.batch as int, k as int) <= s.rows,
        batch_start(s.rows as int, s.batch as int, (k + 1) as int) == batch_end(
            s.rows as int,
            s.batch as int,
            batch_start(s.rows as int, s.batch as int, k as int),
        ),
        k * s.batch >= s.rows ==> after_batches(s, k).stage == Stage::Batches(s.rows),
    decreases k,
{
    let (rows, batch) = (s.rows as int, s.batch as int);
    assert(k * batch >= 0 && (k + 1) * batch == k * batch + batch) by (nonlinear_arith)
        requires
            batch >= 1,
            k >= 0,
    ;
    if k > 0 {
        law_batches_cover(s, (k - 1) as nat);
    } else {
        assert(0 * batch == 0);
    }
}

/// How many batches an epoch has.
pub open spec fn batch_count(rows: int, batch: int) -> int {
    (rows + batch - 1) / batch
}

/// The batches of an epoch, as the rows that they begin with and end before.
pub fn batches(rows: usize, batch_size: usize) -> (r: Vec<(usize, usize)>)
    ensures
        ({
            let batch = if batch_size < 1 {
                1
            } else {
                batch_size as int
            };
            r@ == Seq::new(
                batch_count(rows as int, batch) as nat,
                |k: int|
                    (
                        batch_start(rows as int, batch, k) as usize,
                        batch_start(rows as int, batch, k + 1) as usize,
                    ),
            )
        }),
{
    let s = Schedule::new(1, rows, batch_size, false);
    let ghost (n, b) = (rows as int, s.batch as int);
    let mut r: Vec<(usize, usize)> = Vec::new();
    let mut start: usize = 0;
    assert(0 * b == 0);
    while start < rows
        invariant
            start <= rows,
            n == rows,
            b == s.batch,
            b >= 1,
            s.rows == rows,
            start == batch_start(n, b, r@.len() as int),
            r@.len() > 0 ==> (r@.len() - 1) * b < n,
            r@ == Seq::new(
                r@.len(),
                |k: int| (batch_start(n, b, k) as usize, batch_start(n, b, k + 1) as usize),
            ),
        decreases rows - start,
    {
        let ghost k = r@.len() as int;
        let end = s.end_of(start);
        proof {
            assert((k + 1) * b == k * b + b) by (nonlinear_arith);
            assert(end == batch_start(n, b, k + 1));
        }
        r.push((start, end));
        assert(r@ =~= Seq::new(
            r@.len(),
            |k: int| (batch_start(n, b, k) as usize, batch_start(n, b, k + 1) as usize),
        ));
        start = end;
    }
    proof {
        let k = r@.len() as int;
        assert(k == batch_count(n, b)) by {
            if k > 0 {
                assert(k == (n + b - 1) / b) by (nonlinear_arith)
                    requires
                        b >= 1,
                        (k - 1) * b < n,
                        k * b >= n,
                ;
            } else {
                assert((b - 1) / b == 0) by (nonlinear_arith)
                    requires
                        b >= 1,
                ;
            }
        }
    }
    r
}

/// Every step but waiting brings the end nearer, so every run that is not paused
/// for ever ends.
pub proof fn law_every_run_ends(s: Schedule, cancelled: bool, improved: bool)
    requires
        s.wf(),
        s.stage != Stage::Done,
    ensures
        match s.stage {
            Stage::Batches(start) => if start < s.rows {
                s.after_batch().distance() < s.distance()
            } else {
                s.settled(cancelled).distance() < s.distance()
            },
            Stage::Validation => s.at(Stage::Matrix(improved)).distance() < s.distance(),
            Stage::Matrix(_) => s.after_matrix().distance() < s.distance(),
            Stage::Grid(_) => s.after_grid().distance() < s.distance(),
            Stage::Checkpoint => s.at(Stage::Boundary(false)).distance() < s.distance(),
            Stage::Boundary(_) => s.after_epoch(cancelled).distance() < s.distance(),
            Stage::Done => true,
        },
{
    let (left, rows) = (s.epochs - s.epoch, s.rows as int);
    assert(left * (rows + 7) >= 0) by (nonlinear_arith)
        requires
            left >= 0,
            rows >= 0,
    ;
    if s.stage is Boundary && !cancelled && s.epoch < s.epochs {
        assert((left - 1) * (rows + 7) == left * (rows + 7) - (rows + 7)) by (nonlinear_arith);
        assert((left - 1) * (rows + 7) >= 0) by (nonlinear_arith)
            requires
                left >= 1,
                rows >= 0,
        ;
    }
}

// ---------------------------------------------------------------------------
// What is written down.
// ---------------------------------------------------------------------------

/// A list of numbers in brackets.
pub open spec fn list_text(list: Seq<usize>) -> Seq<char> {
    "["@ + text::join(Seq::new(list.len(), |i: int| text::decimal(list[i] as nat)), ", "@) + "]"@
}

fn counts_text(list: &Vec<usize>) -> (r: String)
    ensures
        r@ == list_text(list@),
{
    let mut parts: Vec<String> = Vec::new();
    let mut i: usize = 0;
    while i < list.len()
        invariant
            i <= list@.len(),
            parts@.len() == i,
            forall|j: int|
                0 <= j < i ==> (#[trigger] parts@[j])@ == text::decimal(list@[j] as nat),
        decreases list@.len() - i,
    {
        parts.push(text::decimal_string(list[i] as u64));
        i += 1;
    }
    assert(text::texts(parts@) =~= Seq::new(
        list@.len(),
        |j: int| text::decimal(list@[j] as nat),
    ));
    let joined = text::joined(&parts, ", ");
    let mut r = "[".to_string();
    r.append(joined.as_str());
    r.append("]");
    r
}

/// The training settings as JSON.
pub open spec fn train_json(root: Root, lr: json::Json, val_split: json::Json) -> json::Json {
    json::Json::Object(
        map![
            "epochs"@ => json::Json::Unsigned(root.train.epochs as u64),
            "batch_size"@ => json::Json::Unsigned(root.train.batch_size as u64),
            "lr"@ => lr,
            "val_split"@ => val_split,
            "seed"@ => json::Json::Unsigned(root.train.seed),
            "device"@ => json::Json::Text(root.train.device@),
        ],
    )
}

/// The configuration that is recorded with a run.
pub open spec fn config_json(
    train: json::Json,
    model: json::Json,
    derived: json::Json,
) -> json::Json {
    json::Json::Object(
        map![
            "train"@ => train,
            "model"@ => model,
            "engine"@ => json::Json::Text("nexis-ml-rs"@),
            "derived"@ => derived,
        ],
    )
}

/// The configuration of a run on a table.
pub open spec fn tabular_config(
    root: Root,
    lr: json::Json,
    val_split: json::Json,
    classes: Seq<Seq<char>>,
    features: Seq<Seq<char>>,
) -> json::Json {
    config_json(
        train_json(root, lr, val_split),
        json::Json::Object(map!["hidden"@ => json::count_array(root.model.hidden.widths())]),
        json::Json::Object(
            map![
                "classes"@ => json::text_array(classes),
                "task"@ => json::Json::Text("classification"@),
                "features"@ => json::text_array(features),
            ],
        ),
    )
}

/// The width of the dense layer of the image model.
pub open spec fn dense_width(root: Root) -> usize {
    if root.model.hidden.widths().len() > 0 {
        root.model.hidden.widths()[0]
    } else {
        64
    }
}

/// The configuration of a run on images.
pub open spec fn image_config(
    root: Root,
    lr: json::Json,
    val_split: json::Json,
    classes: Seq<Seq<char>>,
    height: usize,
    width: usize,
) -> json::Json {
    config_json(
        train_json(root, lr, val_split),
        json::Json::Object(
            map![
                "conv1"@ => json::Json::Unsigned(root.model.conv1 as u64),
                "conv2"@ => json::Json::Unsigned(root.model.conv2 as u64),
                "hidden"@ => json::Json::Unsigned(dense_width(root) as u64),
            ],
        ),
        json::Json::Object(
            map![
                "classes"@ => json::text_array(classes),
                "task"@ => json::Json::Text("classification"@),
                "img_size"@ => json::count_array(seq![height, width]),
            ],
        ),
    )
}

/// What a checkpoint of a run on a table holds.
pub open spec fn tabular_checkpoint(
    root: Root,
    classes: Seq<Seq<char>>,
    features: Seq<Seq<char>>,
    mean: json::Json,
    std: json::Json,
) -> json::Json {
    json::Json::Object(
        map![
            "classes"@ => json::text_array(classes),
            "features"@ => json::text_array(features),
            "hidden"@ => json::count_array(root.model.hidden.widths()),
            "mean"@ => mean,
            "std"@ => std,
        ],
    )
}

/// What a checkpoint of a run on images holds.
pub open spec fn image_checkpoint(
    root: Root,
    classes: Seq<Seq<char>>,
    height: usize,
    width: usize,
) -> json::Json {
    json::Json::Object(
        map![
            "classes"@ => json::text_array(classes),
            "img_size"@ => json::count_array(seq![height, width]),
            "conv1"@ => json::Json::Unsigned(root.model.conv1 as u64),
            "conv2"@ => json::Json::Unsigned(root.model.conv2 as u64),
            "hidden"@ => json::Json::Unsigned(dense_width(root) as u64),
        ],
    )
}

/// What is said when a run on a table begins.
pub open spec fn tabular_hello(
    device: Seq<char>,
    n_train: usize,
    n_val: usize,
    n_features: nat,
    n_classes: nat,
    hidden: Seq<usize>,
) -> Seq<char> {
    "burn MLP (Rust engine, "@ + device + "): "@ + text::decimal(n_train as nat) + " train / "@
        + text::decimal(n_val as nat) + " val rows, "@ + text::decimal(n_features) + " features, "@
        + text::decimal(n_classes) + " classes, hidden="@ + list_text(hidden)
}

/// What is said when a run on images begins.
pub open spec fn image_hello(
    root: Root,
    device: Seq<char>,
    n_train: usize,
    n_val: usize,
    height: usize,
    width: usize,
    n_classes: nat,
) -> Seq<char> {
    "burn CNN (Rust engine, "@ + device + "): "@ + text::decimal(n_train as nat) + " train / "@
        + text::decimal(n_val as nat) + " val images ("@ + text::decimal(width as nat) + "x"@
        + text::decimal(height as nat) + "), "@ + text::decimal(n_classes) + " classes, conv "@
        + text::decimal(root.model.conv1 as nat) + "/"@ + text::decimal(root.model.conv2 as nat)
        + ", hidden="@ + text::decimal(dense_width(root) as nat)
}

fn train_value(root: &Root, lr: serde_json::Value, val_split: serde_json::Value) -> (r:
    serde_json::Value)
    ensures
        json::json_model(r) == train_json(*root, json::json_model(lr), json::json_model(val_split)),
{
    let mut m = json::members();
    json::put(&mut m, "epochs", json::unsigned(root.train.epochs as u64));
    json::put(&mut m, "batch_size", json::unsigned(root.train.batch_size as u64));
    json::put(&mut m, "lr", lr);
    json::put(&mut m, "val_split", val_split);
    json::put(&mut m, "seed", json::unsigned(root.train.seed));
    json::put(&mut m, "device", json::text(root.train.device.as_str()));
    json::object(m)
}

fn config_value(
    train: serde_json::Value,
    model: serde_json::Value,
    derived: serde_json::Value,
) -> (r: serde_json::Value)
    ensures
        json::json_model(r) == config_json(
            json::json_model(train),
            json::json_model(model),
            json::json_model(derived),
        ),
{
    let mut m = json::members();
    json::put(&mut m, "train", train);
    json::put(&mut m, "model", model);
    json::put(&mut m, "engine", json::text("nexis-ml-rs"));
    json::put(&mut m, "derived", derived);
    json::object(m)
}

fn size_value(height: usize, width: usize) -> (r: serde_json::Value)
    ensures
        json::json_model(r) == json::count_array(seq![height, width]),
{
    let size: Vec<usize> = vec![height, width];
    assert(size@ =~= seq![height, width]);
    json::counts_value(&size)
}

/// A confusion matrix as a JSON array of rows.
pub open spec fn matrix_json(matrix: Seq<Seq<u32>>) -> json::Json {
    json::Json::Array(
        Seq::new(
            matrix.len(),
            |a: int|
                json::Json::Array(
                    Seq::new(matrix[a].len(), |p: int| json::Json::Unsigned(matrix[a][p] as u64)),
                ),
        ),
    )
}

/// The file of a confusion matrix.
pub open spec fn matrix_file(classes: Seq<Seq<char>>, matrix: Seq<Seq<u32>>) -> json::Json {
    json::Json::Object(
        map!["labels"@ => json::text_array(classes), "matrix"@ => matrix_json(matrix)],
    )
}

fn matrix_value(classes: &Vec<String>, matrix: &Vec<Vec<u32>>) -> (r: serde_json::Value)
    ensures
        json::json_model(r) == matrix_file(text::texts(classes@), model::rows_of(matrix@)),
{
    let mut rows: Vec<serde_json::Value> = Vec::new();
    let mut a: usize = 0;
    while a < matrix.len()
        invariant
            a <= matrix@.len(),
            rows@.len() == a,
            forall|i: int|
                0 <= i < a ==> json::json_model(#[trigger] rows@[i]) == json::Json::Array(
                    Seq::new(
                        matrix@[i]@.len(),
                        |p: int| json::Json::Unsigned(matrix@[i]@[p] as u64),
                    ),
                ),
        decreases matrix@.len() - a,
    {
        let row = &matrix[a];
        let mut cells: Vec<serde_json::Value> = Vec::new();
        let mut p: usize = 0;
        while p < row.len()
            invariant
                p <= row@.len(),
                cells@.len() == p,
                forall|i: int|
                    0 <= i < p ==> json::json_model(#[trigger] cells@[i]) == json::Json::Unsigned(
                        row@[i] as u64,
                    ),
            decreases row@.len() - p,
        {
            cells.push(json::unsigned(row[p] as u64));
            p += 1;
        }
        assert(json::models(cells@) =~= Seq::new(
            matrix@[a as int]@.len(),
            |i: int| json::Json::Unsigned(matrix@[a as int]@[i] as u64),
        ));
        rows.push(json::array(cells));
        a += 1;
    }
    let ghost all = model::rows_of(matrix@);
    assert(json::models(rows@) =~= Seq::new(
        all.len(),
        |i: int|
            json::Json::Array(
                Seq::new(all[i].len(), |p: int| json::Json::Unsigned(all[i][p] as u64)),
            ),
    ));
    let mut m = json::members();
    json::put(&mut m, "labels", json::texts_value(classes));
    json::put(&mut m, "matrix", json::array(rows));
    json::object(m)
}

// ---------------------------------------------------------------------------
// A training run.
// ---------------------------------------------------------------------------

/// What is to be done next.
pub enum Task {
    /// Train on the rows from `start` to `end`.
    Train { epoch: u32, start: usize, end: usize },
    /// Predict the validation rows.
    Validate { epoch: u32 },
    /// Write a confusion matrix.
    SaveMatrix { path: Vec<String>, text: String },
    /// Draw and write the sample predictions.
    SaveGrid { path: Vec<String> },
    /// Write a checkpoint.
    SaveCheckpoint { path: Vec<String>, text: String },
    /// Pass the end of an epoch, where a pause takes effect.
    EndEpoch { epoch: u32 },
    /// Finish the run.
    Finish,
}

/// What is to be done next, in mathematical terms.
pub enum Job {
    Train { epoch: u32, start: usize, end: int },
    Validate { epoch: u32 },
    SaveMatrix { path: Seq<Seq<char>>, text: Seq<char> },
    SaveGrid { path: Seq<Seq<char>> },
    SaveCheckpoint { path: Seq<Seq<char>>, text: Seq<char> },
    EndEpoch { epoch: u32 },
    Finish,
}

impl Job {
    /// The same task in a directory.
    pub open spec fn below(self, dir: Seq<Seq<char>>) -> Job {
        match self {
            Job::SaveMatrix { path, text } => Job::SaveMatrix { path: dir + path, text },
            Job::SaveGrid { path } => Job::SaveGrid { path: dir + path },
            Job::SaveCheckpoint { path, text } => Job::SaveCheckpoint { path: dir + path, text },
            _ => self,
        }
    }
}

impl Task {
    pub open spec fn job(&self) -> Job {
        match self {
            Task::Train { epoch, start, end } => Job::Train {
                epoch: *epoch,
                start: *start,
                end: *end as int,
            },
            Task::Validate { epoch } => Job::Validate { epoch: *epoch },
            Task::SaveMatrix { path, text } => Job::SaveMatrix {
                path: text::texts(path@),
                text: text@,
            },
            Task::SaveGrid { path } => Job::SaveGrid { path: text::texts(path@) },
            Task::SaveCheckpoint { path, text } => Job::SaveCheckpoint {
                path: text::texts(path@),
                text: text@,
            },
            Task::EndEpoch { epoch } => Job::EndEpoch { epoch: *epoch },
            Task::Finish => Job::Finish,
        }
    }
}

/// A text that may be missing, and then is empty.
pub open spec fn or_empty(text: Option<Seq<char>>) -> Seq<char> {
    match text {
        Some(text) => text,
        None => ""@,
    }
}

/// The state of a training run.
#[verifier::ext_equal]
pub struct SessionState {
    pub run: harness::RunState,
    pub schedule: Schedule,
    /// The least validation loss so far.
    pub best: Option<harness::Measure>,
    pub classes: Seq<Seq<char>>,
    /// What a checkpoint holds.
    pub checkpoint: json::Json,
    /// The confusion matrix of the epoch.
    pub matrix: json::Json,
}

/// Whether a validation loss is the best so far. One that is not a number never
/// is, nor is an infinite one.
pub open spec fn improves(best: Option<harness::Measure>, loss: harness::Measure) -> bool {
    match best {
        Some(best) => loss.real.is_less(best.real),
        None => !loss.real.is_nan() && loss.real.rank() < 0x7FF0_0000_0000_0000,
    }
}

/// The metrics of a batch.
pub open spec fn train_values(loss: harness::Measure) -> Seq<(Seq<char>, harness::Measure)> {
    seq![("loss/train"@, loss)]
}

/// The metrics of a validation.
pub open spec fn val_values(loss: harness::Measure, acc: harness::Measure) -> Seq<
    (Seq<char>, harness::Measure),
> {
    seq![("loss/val"@, loss), ("acc/val"@, acc)]
}

/// The metric of the memory in use.
pub open spec fn mem_values(mb: harness::Measure) -> Seq<(Seq<char>, harness::Measure)> {
    seq![("mem/gpu_mb"@, mb)]
}

/// A value that may be missing.
pub open spec fn maybe_measure(value: Option<MetricValue>) -> Option<harness::Measure> {
    match value {
        Some(value) => Some(value@),
        None => None,
    }
}

/// A text that may be missing.
pub open spec fn maybe_text(value: Option<&str>) -> Option<Seq<char>> {
    match value {
        Some(value) => Some(value@),
        None => None,
    }
}

/// The name of a file of an epoch.
pub open spec fn epoch_file(front: Seq<char>, epoch: u32, back: Seq<char>) -> Seq<char> {
    front + text::decimal(epoch as nat) + back
}

impl SessionState {
    /// Whether the counters have room for the metrics of a step.
    pub open spec fn has_room(self) -> bool {
        self.run.step + 2 <= u64::MAX && harness::has_room(self.run.stats, 3)
    }

    /// What is to be done next.
    pub open spec fn job(self) -> Job {
        let epoch = self.schedule.epoch;
        match self.schedule.stage {
            Stage::Batches(start) => Job::Train {
                epoch,
                start,
                end: batch_end(
                    self.schedule.rows as int,
                    self.schedule.batch as int,
                    start as int,
                ),
            },
            Stage::Validation => Job::Validate { epoch },
            Stage::Matrix(_) => Job::SaveMatrix {
                path: self.run.dir.push("artifacts"@).push(
                    epoch_file("cm-epoch"@, epoch, ".json"@),
                ),
                text: or_empty(json::json_text(self.matrix)),
            },
            Stage::Grid(_) => Job::SaveGrid {
                path: self.run.dir.push("artifacts"@).push(
                    epoch_file("samples-epoch"@, epoch, ".png"@),
                ),
            },
            Stage::Checkpoint => Job::SaveCheckpoint {
                path: self.run.dir.push("checkpoints"@).push("best.json"@),
                text: or_empty(json::json_pretty(self.checkpoint)),
            },
            Stage::Boundary(_) => Job::EndEpoch { epoch },
            Stage::Done => Job::Finish,
        }
    }

    /// The session when the next task is asked for.
    pub open spec fn asked(self) -> SessionState {
        SessionState { schedule: self.schedule.settled(self.run.control.cancel), ..self }
    }

    /// The session after a batch.
    pub open spec fn trained(self, loss: harness::Measure) -> SessionState {
        SessionState {
            run: self.run.logged(train_values(loss)),
            schedule: self.schedule.after_batch(),
            ..self
        }
    }

    /// The session after the validation rows were predicted, given the actual
    /// and the predicted class of each.
    pub open spec fn predicted(self, outcomes: Seq<(usize, usize)>) -> SessionState {
        SessionState {
            matrix: matrix_file(
                self.classes,
                model::matrix_of(outcomes, self.classes.len()),
            ),
            ..self
        }
    }

    /// The session after a validation.
    pub open spec fn validated(
        self,
        loss: harness::Measure,
        acc: harness::Measure,
        mem: Option<harness::Measure>,
    ) -> SessionState {
        SessionState {
            run: self.run_validated(loss, acc, mem),
            schedule: self.schedule.at(Stage::Matrix(improves(self.best, loss))),
            best: if improves(self.best, loss) {
                Some(loss)
            } else {
                self.best
            },
            ..self
        }
    }

    /// The run with an artifact more.
    pub open spec fn run_with(self, kind: Seq<char>, path: Seq<char>) -> harness::RunState {
        harness::RunState { artifacts: self.run.artifacts.push((kind, path)), ..self.run }
    }

    /// The session after the confusion matrix was saved.
    pub open spec fn matrix_saved(self, path: Seq<char>) -> SessionState {
        SessionState {
            run: self.run_with("confusion-matrix"@, path),
            schedule: self.schedule.after_matrix(),
            ..self
        }
    }

    /// The session after the sample predictions were saved, or could not be.
    pub open spec fn grid_saved(self, path: Option<Seq<char>>) -> SessionState {
        SessionState {
            run: match path {
                Some(path) => self.run_with("image-grid"@, path),
                None => self.run,
            },
            schedule: self.schedule.after_grid(),
            ..self
        }
    }

    /// The session after the checkpoint was saved.
    pub open spec fn checkpoint_saved(self) -> SessionState {
        SessionState { schedule: self.schedule.at(Stage::Boundary(false)), ..self }
    }

    /// The session after a command from the standard input.
    pub open spec fn told(self, cmd: Option<Seq<char>>) -> SessionState {
        SessionState {
            run: harness::RunState {
                control: harness::obeyed(self.run.control, cmd),
                ..self.run
            },
            ..self
        }
    }

    /// Whether the session waits at the end of an epoch.
    pub open spec fn waits(self) -> bool {
        self.schedule.stage == Stage::Boundary(true)
    }

    /// The session after it came to the end of an epoch. A session
    /// that is held waits there.
    pub open spec fn epoch_ended(self) -> SessionState {
        SessionState {
            run: self.run.passed(self.schedule.epoch, self.waits()),
            schedule: if self.run.gate(self.waits()) == Gate::Open {
                self.schedule.after_epoch(self.run.control.cancel)
            } else {
                self.schedule.at(Stage::Boundary(true))
            },
            ..self
        }
    }

    /// What coming to the end of an epoch does.
    pub open spec fn epoch_acts(self) -> Seq<harness::Act> {
        self.run.passing_acts(self.schedule.epoch, self.waits())
    }

    /// The run after a validation.
    pub open spec fn run_validated(
        self,
        loss: harness::Measure,
        acc: harness::Measure,
        mem: Option<harness::Measure>,
    ) -> harness::RunState {
        let logged = self.run.logged(val_values(loss, acc));
        match mem {
            Some(mb) => logged.logged(mem_values(mb)),
            None => logged,
        }
    }

    /// What a validation records.
    pub open spec fn validated_acts(
        self,
        loss: harness::Measure,
        acc: harness::Measure,
        mem: Option<harness::Measure>,
    ) -> Seq<harness::Act> {
        let epoch = self.schedule.epoch;
        let first = self.run.log_acts(val_values(loss, acc), epoch);
        match mem {
            Some(mb) => first + self.run.logged(val_values(loss, acc)).log_acts(
                mem_values(mb),
                epoch,
            ),
            None => first,
        }
    }

    /// What is said of the best loss at the end.
    pub open spec fn best_line(self) -> Seq<char> {
        "best val loss: "@ + match self.best {
            Some(best) => best.text,
            None => "inf"@,
        }
    }

    /// How the run ends.
    pub open spec fn status(self) -> Seq<char> {
        if self.run.control.cancel {
            "cancelled"@
        } else {
            "ok"@
        }
    }

    /// What the end of the run does.
    pub open spec fn finish_acts(self, finished_at: Seq<char>) -> Seq<harness::Act> {
        self.run.info_acts(self.best_line()) + self.run.finish_acts(self.status(), finished_at)
    }
}

/// A training run.
pub struct Session<'a> {
    run: Run<'a>,
    schedule: Schedule,
    best: Option<MetricValue>,
    classes: Vec<String>,
    checkpoint: serde_json::Value,
    matrix: serde_json::Value,
}

impl<'a> View for Session<'a> {
    type V = SessionState;

    closed spec fn view(&self) -> SessionState {
        SessionState {
            run: self.run@,
            schedule: self.schedule,
            best: maybe_measure(self.best),
            classes: text::texts(self.classes@),
            checkpoint: json::json_model(self.checkpoint),
            matrix: json::json_model(self.matrix),
        }
    }
}

/// A training run that has just begun.
pub open spec fn begun(
    run: harness::RunState,
    root: Root,
    n_train: usize,
    images: bool,
    classes: Seq<Seq<char>>,
    checkpoint: json::Json,
) -> SessionState {
    SessionState {
        run,
        schedule: Schedule::beginning(root.train.epochs, n_train, root.train.batch_size, images),
        best: None,
        classes,
        checkpoint,
        matrix: json::Json::Null,
    }
}

fn join_effects(first: Vec<Effect>, second: Vec<Effect>) -> (r: Vec<Effect>)
    ensures
        harness::acts(r@) == harness::acts(first@) + harness::acts(second@),
{
    let mut r = first;
    let mut more = second;
    r.append(&mut more);
    assert(harness::acts(r@) =~= harness::acts(first@) + harness::acts(second@));
    r
}

/// The sizes of a data set.
pub struct Sizes {
    pub n_train: usize,
    pub n_val: usize,
}

/// Begins a run on a table at a given time.
pub fn run_training_at<'a>(
    emitter: &'a Emitter,
    dir: RunDir,
    abs_dir: &str,
    root: &Root,
    lr: serde_json::Value,
    val_split: serde_json::Value,
    device_label: &str,
    sizes: Sizes,
    feature_names: &Vec<String>,
    classes: Vec<String>,
    mean: serde_json::Value,
    std: serde_json::Value,
    started_at: String,
) -> (r: (Session<'a>, Vec<Effect>))
    ensures
        ({
            let run = harness::RunState::fresh(
                "tabular"@,
                dir,
                root.train.epochs,
                device_label@,
                started_at@,
                emitter.is_enabled(),
            );
            let config = tabular_config(
                *root,
                json::json_model(lr),
                json::json_model(val_split),
                text::texts(classes@),
                text::texts(feature_names@),
            );
            let checkpoint = tabular_checkpoint(
                *root,
                text::texts(classes@),
                text::texts(feature_names@),
                json::json_model(mean),
                json::json_model(std),
            );
            &&& r.0@ == begun(
                run,
                *root,
                sizes.n_train,
                false,
                text::texts(classes@),
                checkpoint,
            )
            &&& harness::acts(r.1@) == run.start_acts(config, abs_dir@) + run.info_acts(
                tabular_hello(
                    device_label@,
                    sizes.n_train,
                    sizes.n_val,
                    feature_names@.len(),
                    classes@.len(),
                    root.model.hidden.widths(),
                ),
            )
        }),
        r.0@.schedule.wf(),
{
    let hidden = root.model.hidden.layers();
    let mut model = json::members();
    json::put(&mut model, "hidden", json::counts_value(&hidden));
    let mut derived = json::members();
    json::put(&mut derived, "classes", json::texts_value(&classes));
    json::put(&mut derived, "task", json::text("classification"));
    json::put(&mut derived, "features", json::texts_value(feature_names));
    let train = train_value(root, lr, val_split);
    let config = config_value(train, json::object(model), json::object(derived));
    let mut checkpoint = json::members();
    json::put(&mut checkpoint, "classes", json::texts_value(&classes));
    json::put(&mut checkpoint, "features", json::texts_value(feature_names));
    json::put(&mut checkpoint, "hidden", json::counts_value(&hidden));
    json::put(&mut checkpoint, "mean", mean);
    json::put(&mut checkpoint, "std", std);
    let (run, started) = Run::start_at(
        emitter,
        dir,
        "tabular",
        config,
        root.train.epochs,
        device_label,
        abs_dir,
        started_at,
    );
    let mut msg = "burn MLP (Rust engine, ".to_string();
    msg.append(device_label);
    msg.append("): ");
    text::push_decimal(&mut msg, sizes.n_train as u64);
    msg.append(" train / ");
    text::push_decimal(&mut msg, sizes.n_val as u64);
    msg.append(" val rows, ");
    text::push_decimal(&mut msg, feature_names.len() as u64);
    msg.append(" features, ");
    text::push_decimal(&mut msg, classes.len() as u64);
    msg.append(" classes, hidden=");
    let shown = counts_text(&hidden);
    msg.append(shown.as_str());
    let said = run.info(msg.as_str());
    let schedule = Schedule::new(root.train.epochs, sizes.n_train, root.train.batch_size, false);
    let session = Session {
        run,
        schedule,
        best: None,
        classes,
        checkpoint: json::object(checkpoint),
        matrix: json::null(),
    };
    (session, join_effects(started, said))
}

/// Begins a run on images at a given time.
pub fn run_cnn_training_at<'a>(
    emitter: &'a Emitter,
    dir: RunDir,
    abs_dir: &str,
    root: &Root,
    lr: serde_json::Value,
    val_split: serde_json::Value,
    device_label: &str,
    sizes: Sizes,
    height: usize,
    width: usize,
    classes: Vec<String>,
    started_at: String,
) -> (r: (Session<'a>, Vec<Effect>))
    ensures
        ({
            let run = harness::RunState::fresh(
                "image"@,
                dir,
                root.train.epochs,
                device_label@,
                started_at@,
                emitter.is_enabled(),
            );
            let config = image_config(
                *root,
                json::json_model(lr),
                json::json_model(val_split),
                text::texts(classes@),
                height,
                width,
            );
            let checkpoint = image_checkpoint(*root, text::texts(classes@), height, width);
            &&& r.0@ == begun(run, *root, sizes.n_train, true, text::texts(classes@), checkpoint)
            &&& harness::acts(r.1@) == run.start_acts(config, abs_dir@) + run.info_acts(
                image_hello(
                    *root,
                    device_label@,
                    sizes.n_train,
                    sizes.n_val,
                    height,
                    width,
                    classes@.len(),
                ),
            )
        }),
        r.0@.schedule.wf(),
{
    let hidden = root.model.hidden.dense();
    let mut model = json::members();
    json::put(&mut model, "conv1", json::unsigned(root.model.conv1 as u64));
    json::put(&mut model, "conv2", json::unsigned(root.model.conv2 as u64));
    json::put(&mut model, "hidden", json::unsigned(hidden as u64));
    let mut derived = json::members();
    json::put(&mut derived, "classes", json::texts_value(&classes));
    json::put(&mut derived, "task", json::text("classification"));
    json::put(&mut derived, "img_size", size_value(height, width));
    let train = train_value(root, lr, val_split);
    let config = config_value(train, json::object(model), json::object(derived));
    let mut checkpoint = json::members();
    json::put(&mut checkpoint, "classes", json::texts_value(&classes));
    json::put(&mut checkpoint, "img_size", size_value(height, width));
    json::put(&mut checkpoint, "conv1", json::unsigned(root.model.conv1 as u64));
    json::put(&mut checkpoint, "conv2", json::unsigned(root.model.conv2 as u64));
    json::put(&mut checkpoint, "hidden", json::unsigned(hidden as u64));
    let (run, started) = Run::start_at(
        emitter,
        dir,
        "image",
        config,
        root.train.epochs,
        device_label,
        abs_dir,
        started_at,
    );
    let mut msg = "burn CNN (Rust engine, ".to_string();
    msg.append(device_label);
    msg.append("): ");
    text::push_decimal(&mut msg, sizes.n_train as u64);
    msg.append(" train / ");
    text::push_decimal(&mut msg, sizes.n_val as u64);
    msg.append(" val images (");
    text::push_decimal(&mut msg, width as u64);
    msg.append("x");
    text::push_decimal(&mut msg, height as u64);
    msg.append("), ");
    text::push_decimal(&mut msg, classes.len() as u64);
    msg.append(" classes, conv ");
    text::push_decimal(&mut msg, root.model.conv1 as u64);
    msg.append("/");
    text::push_decimal(&mut msg, root.model.conv2 as u64);
    msg.append(", hidden=");
    text::push_decimal(&mut msg, hidden as u64);
    let said = run.info(msg.as_str());
    let schedule = Schedule::new(root.train.epochs, sizes.n_train, root.train.batch_size, true);
    let session = Session {
        run,
        schedule,
        best: None,
        classes,
        checkpoint: json::object(checkpoint),
        matrix: json::null(),
    };
    (session, join_effects(started, said))
}

/// Begins a run on a table now.
pub fn run_training<'a>(
    emitter: &'a Emitter,
    dir: RunDir,
    abs_dir: &str,
    root: &Root,
    lr: serde_json::Value,
    val_split: serde_json::Value,
    device_label: &str,
    sizes: Sizes,
    feature_names: &Vec<String>,
    classes: Vec<String>,
    mean: serde_json::Value,
    std: serde_json::Value,
) -> (r: (Session<'a>, Vec<Effect>))
    ensures
        exists|secs: i64|
            r.0@.run == harness::RunState::fresh(
                "tabular"@,
                dir,
                root.train.epochs,
                device_label@,
                #[trigger] run_store::iso_text(secs as int),
                emitter.is_enabled(),
            ),
        r.0@ == begun(
            r.0@.run,
            *root,
            sizes.n_train,
            false,
            text::texts(classes@),
            tabular_checkpoint(
                *root,
                text::texts(classes@),
                text::texts(feature_names@),
                json::json_model(mean),
                json::json_model(std),
            ),
        ),
        harness::acts(r.1@) == r.0@.run.start_acts(
            tabular_config(
                *root,
                json::json_model(lr),
                json::json_model(val_split),
                text::texts(classes@),
                text::texts(feature_names@),
            ),
            abs_dir@,
        ) + r.0@.run.info_acts(
            tabular_hello(
                device_label@,
                sizes.n_train,
                sizes.n_val,
                feature_names@.len(),
                classes@.len(),
                root.model.hidden.widths(),
            ),
        ),
        r.0@.schedule.wf(),
{
    let started_at = run_store::now_iso();
    run_training_at(
        emitter,
        dir,
        abs_dir,
        root,
        lr,
        val_split,
        device_label,
        sizes,
        feature_names,
        classes,
        mean,
        std,
        started_at,
    )
}

/// Begins a run on images now.
pub fn run_cnn_training<'a>(
    emitter: &'a Emitter,
    dir: RunDir,
    abs_dir: &str,
    root: &Root,
    lr: serde_json::Value,
    val_split: serde_json::Value,
    device_label: &str,
    sizes: Sizes,
    height: usize,
    width: usize,
    classes: Vec<String>,
) -> (r: (Session<'a>, Vec<Effect>))
    ensures
        exists|secs: i64|
            r.0@.run == harness::RunState::fresh(
                "image"@,
                dir,
                root.train.epochs,
                device_label@,
                #[trigger] run_store::iso_text(secs as int),
                emitter.is_enabled(),
            ),
        r.0@ == begun(
            r.0@.run,
            *root,
            sizes.n_train,
            true,
            text::texts(classes@),
            image_checkpoint(*root, text::texts(classes@), height, width),
        ),
        harness::acts(r.1@) == r.0@.run.start_acts(
            image_config(
                *root,
                json::json_model(lr),
                json::json_model(val_split),
                text::texts(classes@),
                height,
                width,
            ),
            abs_dir@,
        ) + r.0@.run.info_acts(
            image_hello(
                *root,
                device_label@,
                sizes.n_train,
                sizes.n_val,
                height,
                width,
                classes@.len(),
            ),
        ),
        r.0@.schedule.wf(),
{
    let started_at = run_store::now_iso();
    run_cnn_training_at(
        emitter,
        dir,
        abs_dir,
        root,
        lr,
        val_split,
        device_label,
        sizes,
        height,
        width,
        classes,
        started_at,
    )
}

fn epoch_path(dir: Vec<String>, front: &str, epoch: u32, back: &str) -> (r: Vec<String>)
    ensures
        text::texts(r@) == text::texts(dir@).push(epoch_file(front@, epoch, back@)),
{
    let mut name = front.to_string();
    text::push_decimal(&mut name, epoch as u64);
    name.append(back);
    let mut path = dir;
    path.push(name);
    assert(text::texts(path@) =~= text::texts(dir@).push(epoch_file(front@, epoch, back@)));
    path
}

impl<'a> Session<'a> {
    /// Decides what is to be done next.
    pub fn next_task(&mut self) -> (r: Task)
        requires
            old(self)@.schedule.wf(),
        ensures
            final(self)@ == old(self)@.asked(),
            final(self)@.schedule.wf(),
            r.job() == final(self)@.job(),
    {
        let cancelled = self.run.cancelled();
        self.schedule.settle(cancelled);
        let epoch = self.schedule.epoch;
        match self.schedule.stage {
            Stage::Batches(start) => Task::Train {
                epoch,
                start,
                end: self.schedule.end_of(start),
            },
            Stage::Validation => Task::Validate { epoch },
            Stage::Matrix(_) => {
                let path = epoch_path(self.run.artifacts_dir(), "cm-epoch", epoch, ".json");
                let text = match json::one_line(&self.matrix) {
                    Some(text) => text,
                    None => "".to_string(),
                };
                Task::SaveMatrix { path, text }
            },
            Stage::Grid(_) => Task::SaveGrid {
                path: epoch_path(self.run.artifacts_dir(), "samples-epoch", epoch, ".png"),
            },
            Stage::Checkpoint => {
                let mut path = self.run.checkpoints_dir();
                let ghost dir = text::texts(path@);
                path.push("best.json".to_string());
                assert(text::texts(path@) =~= dir.push("best.json"@));
                let text = match json::pretty(&self.checkpoint) {
                    Some(text) => text,
                    None => "".to_string(),
                };
                Task::SaveCheckpoint { path, text }
            },
            Stage::Boundary(_) => Task::EndEpoch { epoch },
            Stage::Done => Task::Finish,
        }
    }

    /// Whether the counters have room for the metrics of a step.
    pub fn can_log(&self) -> (r: bool)
        ensures
            r == self@.has_room(),
    {
        self.run.steps() < u64::MAX - 1 && self.run.room_for(3)
    }

    /// A batch was trained on.
    pub fn trained(&mut self, loss: MetricValue) -> (r: Vec<Effect>)
        requires
            old(self)@.schedule.wf(),
            old(self)@.schedule.stage is Batches,
            old(self)@.has_room(),
        ensures
            final(self)@ == old(self)@.trained(loss@),
            final(self)@.schedule.wf(),
            harness::acts(r@) == old(self)@.run.log_acts(
                train_values(loss@),
                old(self)@.schedule.epoch,
            ),
    {
        let metrics = [("loss/train", loss)];
        assert(harness::measures(metrics@) =~= train_values(loss@));
        let r = self.run.log(&metrics, self.schedule.epoch);
        self.schedule.pass_batch();
        r
    }

    /// The validation rows were predicted: counts the predictions, and gives how
    /// many are right.
    pub fn predicted(&mut self, preds: &[i64], targets: &[usize]) -> (r: usize)
        requires
            old(self)@.schedule.wf(),
            old(self)@.schedule.stage == Stage::Validation,
            model::outcomes(preds@, targets@).len() <= u32::MAX,
        ensures
            final(self)@ == old(self)@.predicted(model::outcomes(preds@, targets@)),
            r == model::hits(model::outcomes(preds@, targets@), old(self)@.classes.len()),
    {
        let (matrix, correct) = model::confusion(preds, targets, self.classes.len());
        self.matrix = matrix_value(&self.classes, &matrix);
        correct
    }

    /// The validation is evaluated: the loss, the share that is right, and the
    /// memory in use where it is known.
    pub fn validated(
        &mut self,
        loss: MetricValue,
        acc: MetricValue,
        mem: Option<MetricValue>,
    ) -> (r: Vec<Effect>)
        requires
            old(self)@.schedule.wf(),
            old(self)@.schedule.stage == Stage::Validation,
            old(self)@.has_room(),
        ensures
            final(self)@ == old(self)@.validated(loss@, acc@, maybe_measure(mem)),
            final(self)@.schedule.wf(),
            harness::acts(r@) == old(self)@.validated_acts(loss@, acc@, maybe_measure(mem)),
    {
        let ghost before = self@;
        let improved = match &self.best {
            Some(best) => loss.real.less(best.real),
            None => loss.real.less(Real::infinity()),
        };
        assert(improved == improves(before.best, loss@));
        let metrics = [("loss/val", loss.copy()), ("acc/val", acc)];
        assert(harness::measures(metrics@) =~= val_values(loss@, acc@));
        proof {
            lemma_room(before.run.stats, loss@, acc@);
        }
        let first = self.run.log(&metrics, self.schedule.epoch);
        let r = match mem {
            Some(mb) => {
                let more = [("mem/gpu_mb", mb)];
                assert(harness::measures(more@) =~= mem_values(mb@));
                let second = self.run.log(&more, self.schedule.epoch);
                join_effects(first, second)
            },
            None => first,
        };
        if improved {
            self.best = Some(loss);
        }
        self.schedule.stage = Stage::Matrix(improved);
        r
    }

    /// The confusion matrix was saved; `path` is its absolute path.
    pub fn matrix_saved(&mut self, path: &str) -> (r: Vec<Effect>)
        requires
            old(self)@.schedule.wf(),
            old(self)@.schedule.stage is Matrix,
        ensures
            final(self)@ == old(self)@.matrix_saved(path@),
            final(self)@.schedule.wf(),
            harness::acts(r@) == old(self)@.run.recorded(
                old(self)@.run.artifact_event("confusion-matrix"@, path@),
            ),
    {
        let r = self.run.artifact("confusion-matrix", path);
        self.schedule.pass_matrix();
        r
    }

    /// The sample predictions were saved at an absolute path, or could not be.
    pub fn grid_saved(&mut self, path: Option<&str>) -> (r: Vec<Effect>)
        requires
            old(self)@.schedule.wf(),
            old(self)@.schedule.stage is Grid,
        ensures
            final(self)@ == old(self)@.grid_saved(maybe_text(path)),
            final(self)@.schedule.wf(),
            harness::acts(r@) == match path {
                Some(path) => old(self)@.run.recorded(
                    old(self)@.run.artifact_event("image-grid"@, path@),
                ),
                None => Seq::<harness::Act>::empty(),
            },
    {
        let r = match path {
            Some(path) => self.run.artifact("image-grid", path),
            None => {
                let none: Vec<Effect> = Vec::new();
                assert(harness::acts(none@) =~= Seq::<harness::Act>::empty());
                none
            },
        };
        self.schedule.pass_grid();
        r
    }

    /// The checkpoint was saved.
    pub fn checkpoint_saved(&mut self)
        requires
            old(self)@.schedule.wf(),
            old(self)@.schedule.stage == Stage::Checkpoint,
        ensures
            final(self)@ == old(self)@.checkpoint_saved(),
            final(self)@.schedule.wf(),
    {
        self.schedule.stage = Stage::Boundary(false);
    }

    /// Takes a line from the standard input.
    pub fn control_line(&mut self, line: &str)
        ensures
            final(self)@ == old(self)@.told(
                harness::command(json::json_parse(text::trim(line@))),
            ),
    {
        self.run.control_line(line);
    }

    /// Comes to the end of an epoch. A run that is paused waits there, and
    /// comes again until nothing holds it.
    pub fn epoch_ended(&mut self) -> (r: (Gate, Vec<Effect>))
        requires
            old(self)@.schedule.wf(),
            old(self)@.schedule.stage is Boundary,
        ensures
            r.0 == old(self)@.run.gate(old(self)@.waits()),
            final(self)@ == old(self)@.epoch_ended(),
            final(self)@.schedule.wf(),
            harness::acts(r.1@) == old(self)@.epoch_acts(),
    {
        let waiting = match self.schedule.stage {
            Stage::Boundary(waiting) => waiting,
            _ => false,
        };
        let (gate, effects) = self.run.epoch(self.schedule.epoch, waiting);
        match gate {
            Gate::Open => {
                let cancelled = self.run.cancelled();
                self.schedule.pass_epoch(cancelled);
            },
            _ => {
                self.schedule.stage = Stage::Boundary(true);
            },
        }
        (gate, effects)
    }

    /// Finishes the run at a given time.
    pub fn finish_at(self, finished_at: &str) -> (r: Vec<Effect>)
        ensures
            harness::acts(r@) == self@.finish_acts(finished_at@),
    {
        let mut msg = "best val loss: ".to_string();
        match &self.best {
            Some(best) => msg.append(best.text.as_str()),
            None => msg.append("inf"),
        }
        let said = self.run.info(msg.as_str());
        let status = if self.run.cancelled() {
            "cancelled"
        } else {
            "ok"
        };
        let done = self.run.finish_at(status, finished_at);
        join_effects(said, done)
    }

    /// Finishes the run now.
    pub fn finish(self) -> (r: Vec<Effect>)
        ensures
            exists|secs: i64|
                harness::acts(r@) == self@.finish_acts(
                    #[trigger] run_store::iso_text(secs as int),
                ),
    {
        let finished_at = run_store::now_iso();
        self.finish_at(finished_at.as_str())
    }
}

proof fn lemma_room(
    stats: Seq<(Seq<char>, harness::Series)>,
    loss: harness::Measure,
    acc: harness::Measure,
)
    requires
        harness::has_room(stats, 3),
    ensures
        harness::has_room(stats, 2),
        harness::has_room(stats, 1),
        harness::has_room(harness::with_values(stats, val_values(loss, acc)), 1),
{
    let values = val_values(loss, acc);
    reveal_with_fuel(harness::with_values, 3);
    assert(values.drop_last().last() == values[0]);
    assert(values.drop_last().drop_last() =~= Seq::<(Seq<char>, harness::Measure)>::empty());
    harness::lemma_with_value_room(stats, values[0].0, values[0].1, 3);
    let once = harness::with_value(stats, values[0].0, values[0].1);
    harness::lemma_with_value_room(once, values[1].0, values[1].1, 2);
}

/// A run that is cancelled while it trains finishes as cancelled after the
/// batches of the epoch, without a validation and without another checkpoint;
/// one that is cancelled later finishes with the epoch.
pub proof fn law_cancelled_run_finishes(s: SessionState)
    requires
        s.schedule.wf(),
        s.run.control.cancel,
    ensures
        s.status() == "cancelled"@,
        s.schedule.stage == Stage::Batches(s.schedule.rows) ==> s.asked().job() == Job::Finish,
        s.schedule.stage is Boundary ==> {
            let t = s.epoch_ended();
            t.job() == Job::Finish || t.waits() && t.epoch_ended().job() == Job::Finish
        },
{
}

// ---------------------------------------------------------------------------
// Whole runs.
// ---------------------------------------------------------------------------

/// What a session is told.
pub enum Answer {
    /// The next task is asked for.
    Asked,
    Trained(harness::Measure),
    Predicted(Seq<(usize, usize)>),
    Validated { loss: harness::Measure, acc: harness::Measure, mem: Option<harness::Measure> },
    MatrixSaved(Seq<char>),
    GridSaved(Option<Seq<char>>),
    CheckpointSaved,
    Told(Option<Seq<char>>),
    EpochEnded,
}

impl Answer {
    /// What is left of an answer where paths do not matter.
    pub open spec fn bare(self) -> Answer {
        match self {
            Answer::MatrixSaved(_) => Answer::MatrixSaved(Seq::empty()),
            Answer::GridSaved(_) => Answer::GridSaved(None),
            _ => self,
        }
    }
}

impl SessionState {
    /// The session after an answer.
    pub open spec fn after(self, answer: Answer) -> SessionState {
        match answer {
            Answer::Asked => self.asked(),
            Answer::Trained(loss) => self.trained(loss),
            Answer::Predicted(outcomes) => self.predicted(outcomes),
            Answer::Validated { loss, acc, mem } => self.validated(loss, acc, mem),
            Answer::MatrixSaved(path) => self.matrix_saved(path),
            Answer::GridSaved(path) => self.grid_saved(path),
            Answer::CheckpointSaved => self.checkpoint_saved(),
            Answer::Told(cmd) => self.told(cmd),
            Answer::EpochEnded => self.epoch_ended(),
        }
    }

    /// The session after a series of answers.
    pub open spec fn after_all(self, answers: Seq<Answer>) -> SessionState
        decreases answers.len(),
    {
        if answers.len() == 0 {
            self
        } else {
            self.after_all(answers.drop_last()).after(answers.last())
        }
    }

    /// The metrics that an answer records.
    pub open spec fn records(self, answer: Answer) -> Seq<harness::MetricRecord> {
        let epoch = self.schedule.epoch;
        match answer {
            Answer::Trained(loss) => self.run.log_records(train_values(loss), epoch),
            Answer::Validated { loss, acc, mem } => {
                let first = self.run.log_records(val_values(loss, acc), epoch);
                match mem {
                    Some(mb) => first + self.run.logged(val_values(loss, acc)).log_records(
                        mem_values(mb),
                        epoch,
                    ),
                    None => first,
                }
            },
            _ => Seq::empty(),
        }
    }

    /// The metrics that a series of answers records.
    pub open spec fn all_records(self, answers: Seq<Answer>) -> Seq<harness::MetricRecord>
        decreases answers.len(),
    {
        if answers.len() == 0 {
            Seq::empty()
        } else {
            self.all_records(answers.drop_last()) + self.after_all(answers.drop_last()).records(
                answers.last(),
            )
        }
    }

    /// What an answer does.
    pub open spec fn acts(self, answer: Answer) -> Seq<harness::Act> {
        match answer {
            Answer::Trained(loss) => self.run.log_acts(train_values(loss), self.schedule.epoch),
            Answer::Validated { loss, acc, mem } => self.validated_acts(loss, acc, mem),
            Answer::MatrixSaved(path) => self.run.recorded(
                self.run.artifact_event("confusion-matrix"@, path),
            ),
            Answer::GridSaved(Some(path)) => self.run.recorded(
                self.run.artifact_event("image-grid"@, path),
            ),
            Answer::EpochEnded => self.epoch_acts(),
            _ => Seq::empty(),
        }
    }

    /// What a series of answers does.
    pub open spec fn all_acts(self, answers: Seq<Answer>) -> Seq<harness::Act>
        decreases answers.len(),
    {
        if answers.len() == 0 {
            Seq::empty()
        } else {
            self.all_acts(answers.drop_last()) + self.after_all(answers.drop_last()).acts(
                answers.last(),
            )
        }
    }

    /// The session as if it had begun at another time.
    pub open spec fn started(self, at: Seq<char>) -> SessionState {
        SessionState { run: harness::RunState { started_at: at, ..self.run }, ..self }
    }

    /// What is left of a session where it does not matter when and in which
    /// directory it runs.
    pub open spec fn bare(self) -> SessionState {
        SessionState {
            run: harness::RunState {
                dir: Seq::empty(),
                id: Seq::empty(),
                started_at: Seq::empty(),
                artifacts: Seq::empty(),
                ..self.run
            },
            ..self
        }
    }
}

/// A batch and a validation append exactly the events of their metrics.
pub proof fn law_records_are_appended(
    s: SessionState,
    loss: harness::Measure,
    acc: harness::Measure,
    mem: Option<harness::Measure>,
)
    ensures
        s.run.log_acts(train_values(loss), s.schedule.epoch) == s.run.record_acts(
            s.records(Answer::Trained(loss)),
        ),
        s.validated_acts(loss, acc, mem) == s.run.record_acts(
            s.records(Answer::Validated { loss, acc, mem }),
        ),
{
    let epoch = s.schedule.epoch;
    let values = val_values(loss, acc);
    harness::law_log_keeps_records(s.run, train_values(loss), epoch);
    harness::law_log_keeps_records(s.run, values, epoch);
    if let Some(mb) = mem {
        let logged = s.run.logged(values);
        harness::law_log_keeps_records(logged, mem_values(mb), epoch);
        let first = s.run.log_records(values, epoch);
        let second = logged.log_records(mem_values(mb), epoch);
        assert(second.drop_last() =~= Seq::<harness::MetricRecord>::empty());
        assert((first + second).drop_last() =~= first);
        assert((first + second).last() == second[0]);
        reveal_with_fuel(harness::RunState::record_acts, 2);
        assert(logged.record_acts(second) =~= s.run.record_acts(second));
    }
}

/// Runs are reproducible: two sessions that differ only in when and where they
/// run, and are told the same things but for paths, come to the same task, each in
/// its own directory, record the same metrics at the same steps, and end alike.
pub proof fn law_runs_are_reproducible(
    a: SessionState,
    b: SessionState,
    to_a: Seq<Answer>,
    to_b: Seq<Answer>,
)
    requires
        a.bare() == b.bare(),
        to_a.len() == to_b.len(),
        forall|i: int| 0 <= i < to_a.len() ==> (#[trigger] to_a[i]).bare() == to_b[i].bare(),
    ensures
        a.after_all(to_a).bare() == b.after_all(to_b).bare(),
        a.after_all(to_a).schedule == b.after_all(to_b).schedule,
        a.after_all(to_a).job() == a.after_all(to_a).bare().job().below(a.run.dir),
        b.after_all(to_b).job() == a.after_all(to_a).bare().job().below(b.run.dir),
        a.after_all(to_a).run.stats == b.after_all(to_b).run.stats,
        a.all_records(to_a) == b.all_records(to_b),
        a.after_all(to_a).status() == b.after_all(to_b).status(),
        a.after_all(to_a).best_line() == b.after_all(to_b).best_line(),
    decreases to_a.len(),
{
    if to_a.len() > 0 {
        let (front_a, front_b) = (to_a.drop_last(), to_b.drop_last());
        assert forall|i: int| 0 <= i < front_a.len() implies (#[trigger] front_a[i]).bare()
            == front_b[i].bare() by {
            assert(to_a[i].bare() == to_b[i].bare());
        }
        law_runs_are_reproducible(a, b, front_a, front_b);
        assert(to_a[to_a.len() - 1].bare() == to_b[to_b.len() - 1].bare());
        lemma_alike(a.after_all(front_a), b.after_all(front_b), to_a.last(), to_b.last());
    }
    let (x, y) = (a.after_all(to_a), b.after_all(to_b));
    lemma_stays(a, to_a);
    lemma_stays(b, to_b);
    lemma_job_below(x);
    lemma_job_below(y);
    assert(x.bare().schedule == y.bare().schedule);
    assert(x.bare().run.stats == y.bare().run.stats);
    assert(x.bare().run.control == y.bare().run.control);
    assert(x.bare().best == y.bare().best);
}

proof fn lemma_stays(s: SessionState, answers: Seq<Answer>)
    ensures
        s.after_all(answers).run.dir == s.run.dir,
    decreases answers.len(),
{
    if answers.len() > 0 {
        lemma_stays(s, answers.drop_last());
    }
}

proof fn lemma_job_below(s: SessionState)
    ensures
        s.job() == s.bare().job().below(s.run.dir),
{
    let none = Seq::<Seq<char>>::empty();
    assert forall|a: Seq<char>, b: Seq<char>| #[trigger]
        s.run.dir.push(a).push(b) == s.run.dir + none.push(a).push(b) by {
        assert(s.run.dir.push(a).push(b) =~= s.run.dir + none.push(a).push(b));
    }
}

/// A session that begins at another time, in the same directory and with the same
/// answers, does the same things, event by event.
pub proof fn law_time_changes_no_event(s: SessionState, at: Seq<char>, answers: Seq<Answer>)
    ensures
        s.started(at).after_all(answers) == s.after_all(answers).started(at),
        s.started(at).all_acts(answers) == s.all_acts(answers),
    decreases answers.len(),
{
    if answers.len() > 0 {
        let front = answers.drop_last();
        law_time_changes_no_event(s, at, front);
        let (x, last) = (s.after_all(front), answers.last());
        let y = x.started(at);
        assert(y.after(last) =~~= x.after(last).started(at));
        match last {
            Answer::Trained(loss) => {
                lemma_log_acts(x.run, y.run, train_values(loss), x.schedule.epoch);
            },
            Answer::Validated { loss, acc, mem } => {
                let (epoch, values) = (x.schedule.epoch, val_values(loss, acc));
                lemma_log_acts(x.run, y.run, values, epoch);
                if let Some(mb) = mem {
                    lemma_log_acts(x.run.logged(values), y.run.logged(values), mem_values(mb), epoch);
                }
            },
            _ => {},
        }
    }
}

proof fn lemma_log_acts(
    a: harness::RunState,
    b: harness::RunState,
    values: Seq<(Seq<char>, harness::Measure)>,
    epoch: u32,
)
    requires
        a.step == b.step,
        a.id == b.id,
        a.dir == b.dir,
        a.protocol == b.protocol,
    ensures
        a.log_acts(values, epoch) == b.log_acts(values, epoch),
    decreases values.len(),
{
    if values.len() > 0 {
        lemma_log_acts(a, b, values.drop_last(), epoch);
    }
}

proof fn lemma_alike(a: SessionState, b: SessionState, to_a: Answer, to_b: Answer)
    requires
        a.bare() == b.bare(),
        to_a.bare() == to_b.bare(),
    ensures
        a.after(to_a).bare() == b.after(to_b).bare(),
        a.records(to_a) == b.records(to_b),
{
    let (x, y) = (a.bare(), b.bare());
    assert(x.schedule == y.schedule && x.best == y.best && x.matrix == y.matrix);
    assert(x.classes == y.classes && x.checkpoint == y.checkpoint);
    assert(x.run.stats == y.run.stats && x.run.step == y.run.step);
    assert(x.run.control == y.run.control && x.run.epoch == y.run.epoch);
    assert(x.run.name == y.run.name && x.run.device == y.run.device);
    assert(x.run.total_epochs == y.run.total_epochs && x.run.protocol == y.run.protocol);
    assert(a.after(to_a).bare() =~~= b.after(to_b).bare());
}

/// Sessions that begin with the same settings, data and device differ only in
/// when and where they run.
pub proof fn law_same_settings_begin_alike(
    name: Seq<char>,
    one: RunDir,
    other: RunDir,
    root: Root,
    device: Seq<char>,
    started_at: Seq<char>,
    later: Seq<char>,
    protocol: bool,
    n_train: usize,
    images: bool,
    classes: Seq<Seq<char>>,
    checkpoint: json::Json,
)
    ensures
        ({
            let epochs = root.train.epochs;
            let a = harness::RunState::fresh(name, one, epochs, device, started_at, protocol);
            let b = harness::RunState::fresh(name, other, epochs, device, later, protocol);
            begun(a, root, n_train, images, classes, checkpoint).bare() == begun(
                b,
                root,
                n_train,
                images,
                classes,
                checkpoint,
            ).bare()
        }),
{
}

/// Whether an answer leaves a paused session at the end of its epoch: it asks for
/// the task or to go on, or is a command that neither resumes nor cancels.
pub open spec fn keeps_waiting(answer: Answer) -> bool {
    match answer {
        Answer::Asked => true,
        Answer::EpochEnded => true,
        Answer::Told(cmd) => cmd != Some("resume"@) && cmd != Some("cancel"@),
        _ => false,
    }
}

/// A session that is paused at the end of an epoch stays there until it is told to
/// resume or to cancel. It records nothing meanwhile, and its task stays the same.
pub proof fn law_pause_holds(s: SessionState, answers: Seq<Answer>)
    requires
        s.schedule.stage is Boundary,
        s.run.control.pause,
        !s.run.control.cancel,
        forall|i: int| 0 <= i < answers.len() ==> keeps_waiting(#[trigger] answers[i]),
    ensures
        s.after_all(answers).run == s.run,
        s.after_all(answers).schedule.stage is Boundary,
        s.after_all(answers).job() == (Job::EndEpoch { epoch: s.schedule.epoch }),
        s.after_all(answers).run.gate(s.after_all(answers).waits()) != Gate::Open,
        harness::appended(s.after_all(answers).epoch_acts()) == Seq::<Seq<char>>::empty(),
    decreases answers.len(),
{
    let t = s.after_all(answers);
    if answers.len() > 0 {
        let front = answers.drop_last();
        assert forall|i: int| 0 <= i < front.len() implies keeps_waiting(
            #[trigger] front[i],
        ) by {
            assert(keeps_waiting(answers[i]));
        }
        law_pause_holds(s, front);
        assert(keeps_waiting(answers[answers.len() - 1]));
        assert(t.schedule.epoch == s.schedule.epoch);
        assert(t.run =~= s.run);
    }
    reveal_with_fuel(harness::appended, 2);
    assert(t.run.passing_acts(t.schedule.epoch, t.waits()) =~= t.run.gate_acts(t.waits()));
    if !t.waits() {
        assert(t.epoch_acts().drop_last() =~= Seq::<harness::Act>::empty());
    }
}

/// Told to resume or to cancel, a session that waits at the end of an epoch passes
/// it. Cancelled, it then finishes.
pub proof fn law_pause_ends(s: SessionState, cmd: Seq<char>)
    requires
        s.waits(),
        cmd == "resume"@ || cmd == "cancel"@,
    ensures
        ({
            let t = s.told(Some(cmd)).epoch_ended();
            &&& t.run.epoch == s.schedule.epoch
            &&& t.schedule == s.schedule.after_epoch(t.run.control.cancel)
            &&& cmd == "cancel"@ ==> t.job() == Job::Finish
        }),
{
    harness::law_last_command_decides(s.run.control, cmd);
    reveal_strlit("pause");
    assert("pause"@.len() == 5);
    reveal_strlit("resume");
    assert("resume"@.len() == 6);
    reveal_strlit("cancel");
    assert("cancel"@.len() == 6);
}

/// The least validation loss after a series of losses.
pub open spec fn best_after(losses: Seq<harness::Measure>) -> Option<harness::Measure>
    decreases losses.len(),
{
    if losses.len() == 0 {
        None
    } else if improves(best_after(losses.drop_last()), losses.last()) {
        Some(losses.last())
    } else {
        best_after(losses.drop_last())
    }
}

/// The best loss is one of the losses, and none is less; there is no best loss
/// only as long as every loss is infinite or not a number.
pub proof fn law_best_is_least(losses: Seq<harness::Measure>)
    ensures
        match best_after(losses) {
            Some(best) => losses.contains(best) && !best.real.is_nan() && forall|i: int|
                0 <= i < losses.len() ==> !(#[trigger] losses[i]).real.is_less(best.real),
            None => forall|i: int|
                0 <= i < losses.len() ==> (#[trigger] losses[i]).real.is_nan()
                    || losses[i].real.rank() == 0x7FF0_0000_0000_0000,
        },
    decreases losses.len(),
{
    if losses.len() > 0 {
        let front = losses.drop_last();
        law_best_is_least(front);
        assert(losses[losses.len() - 1] == losses.last());
        assert forall|i: int| 0 <= i < losses.len() - 1 implies #[trigger] losses[i]
            == front[i] by {}
        if best_after(front) is Some && !improves(best_after(front), losses.last()) {
            let best = best_after(front)->0;
            let k = choose|k: int| 0 <= k < front.len() && front[k] == best;
            assert(losses[k] == best);
        }
    }
}

// ---------------------------------------------------------------------------
// What the files of a run say.
// ---------------------------------------------------------------------------

proof fn lemma_setting_names()
    ensures
        "train"@.len() == 5,
        "model"@.len() == 5,
        "engine"@.len() == 6,
        "derived"@.len() == 7,
        "train"@ != "model"@,
        "epochs"@.len() == 6,
        "device"@.len() == 6,
        "epochs"@ != "device"@,
        "batch_size"@.len() == 10,
        "lr"@.len() == 2,
        "val_split"@.len() == 9,
        "seed"@.len() == 4,
        "classes"@.len() == 7,
        "task"@.len() == 4,
        "features"@.len() == 8,
        "img_size"@.len() == 8,
        "conv1"@.len() == 5,
        "conv2"@.len() == 5,
        "conv1"@ != "conv2"@,
        "hidden"@.len() == 6,
        "mean"@.len() == 4,
        "std"@.len() == 3,
        "labels"@ != "matrix"@,
{
    reveal_strlit("train");
    reveal_strlit("model");
    reveal_strlit("engine");
    reveal_strlit("derived");
    reveal_strlit("epochs");
    reveal_strlit("device");
    reveal_strlit("batch_size");
    reveal_strlit("lr");
    reveal_strlit("val_split");
    reveal_strlit("seed");
    reveal_strlit("classes");
    reveal_strlit("task");
    reveal_strlit("features");
    reveal_strlit("img_size");
    reveal_strlit("conv1");
    reveal_strlit("conv2");
    reveal_strlit("hidden");
    reveal_strlit("mean");
    reveal_strlit("std");
    reveal_strlit("labels");
    reveal_strlit("matrix");
    assert("train"@[0] == 't' && "model"@[0] == 'm');
    assert("epochs"@[0] == 'e' && "device"@[0] == 'd');
    assert("conv1"@[4] == '1' && "conv2"@[4] == '2');
    assert("labels"@[0] == 'l' && "matrix"@[0] == 'm');
}

/// The recorded settings of a run are the settings that it was given.
pub proof fn law_settings_are_recorded(root: Root, lr: json::Json, val_split: json::Json)
    ensures
        ({
            let t = train_json(root, lr, val_split);
            &&& harness::member_of(t, "epochs"@) == Some(
                json::Json::Unsigned(root.train.epochs as u64),
            )
            &&& harness::member_of(t, "batch_size"@) == Some(
                json::Json::Unsigned(root.train.batch_size as u64),
            )
            &&& harness::member_of(t, "lr"@) == Some(lr)
            &&& harness::member_of(t, "val_split"@) == Some(val_split)
            &&& harness::member_of(t, "seed"@) == Some(json::Json::Unsigned(root.train.seed))
            &&& harness::member_of(t, "device"@) == Some(json::Json::Text(root.train.device@))
        }),
{
    lemma_setting_names();
}

/// The recorded configuration of a run on a table tells its settings, its layers,
/// its features and its classes.
pub proof fn law_table_config_tells(
    root: Root,
    lr: json::Json,
    val_split: json::Json,
    classes: Seq<Seq<char>>,
    features: Seq<Seq<char>>,
)
    ensures
        ({
            let c = tabular_config(root, lr, val_split, classes, features);
            let model = harness::member_of(c, "model"@)->0;
            let derived = harness::member_of(c, "derived"@)->0;
            &&& harness::member_of(c, "train"@) == Some(train_json(root, lr, val_split))
            &&& harness::member_of(c, "engine"@) == Some(json::Json::Text("nexis-ml-rs"@))
            &&& harness::member_of(c, "model"@) is Some
            &&& harness::member_of(c, "derived"@) is Some
            &&& harness::member_of(model, "hidden"@) == Some(
                json::count_array(root.model.hidden.widths()),
            )
            &&& harness::member_of(derived, "classes"@) == Some(json::text_array(classes))
            &&& harness::member_of(derived, "task"@) == Some(json::Json::Text("classification"@))
            &&& harness::member_of(derived, "features"@) == Some(json::text_array(features))
        }),
{
    lemma_setting_names();
}

/// The recorded configuration of a run on images tells its settings, its layers,
/// its classes and the size of its images.
pub proof fn law_image_config_tells(
    root: Root,
    lr: json::Json,
    val_split: json::Json,
    classes: Seq<Seq<char>>,
    height: usize,
    width: usize,
)
    ensures
        ({
            let c = image_config(root, lr, val_split, classes, height, width);
            let model = harness::member_of(c, "model"@)->0;
            let derived = harness::member_of(c, "derived"@)->0;
            let widths = root.model.hidden.widths();
            &&& harness::member_of(c, "train"@) == Some(train_json(root, lr, val_split))
            &&& harness::member_of(c, "engine"@) == Some(json::Json::Text("nexis-ml-rs"@))
            &&& harness::member_of(c, "model"@) is Some
            &&& harness::member_of(c, "derived"@) is Some
            &&& harness::member_of(model, "conv1"@) == Some(
                json::Json::Unsigned(root.model.conv1 as u64),
            )
            &&& harness::member_of(model, "conv2"@) == Some(
                json::Json::Unsigned(root.model.conv2 as u64),
            )
            &&& harness::member_of(model, "hidden"@) == Some(
                json::Json::Unsigned(
                    if widths.len() > 0 {
                        widths[0] as u64
                    } else {
                        64
                    },
                ),
            )
            &&& harness::member_of(derived, "classes"@) == Some(json::text_array(classes))
            &&& harness::member_of(derived, "task"@) == Some(json::Json::Text("classification"@))
            &&& harness::member_of(derived, "img_size"@) == Some(
                json::count_array(seq![height, width]),
            )
        }),
{
    lemma_setting_names();
}

/// A checkpoint holds what the model was made with: the classes, and for a table
/// its features, its layers and the standardization, for images their size and the
/// layers.
pub proof fn law_checkpoints_tell(
    root: Root,
    classes: Seq<Seq<char>>,
    features: Seq<Seq<char>>,
    mean: json::Json,
    std: json::Json,
    height: usize,
    width: usize,
)
    ensures
        ({
            let c = tabular_checkpoint(root, classes, features, mean, std);
            &&& harness::member_of(c, "classes"@) == Some(json::text_array(classes))
            &&& harness::member_of(c, "features"@) == Some(json::text_array(features))
            &&& harness::member_of(c, "hidden"@) == Some(
                json::count_array(root.model.hidden.widths()),
            )
            &&& harness::member_of(c, "mean"@) == Some(mean)
            &&& harness::member_of(c, "std"@) == Some(std)
        }),
        ({
            let c = image_checkpoint(root, classes, height, width);
            let widths = root.model.hidden.widths();
            &&& harness::member_of(c, "classes"@) == Some(json::text_array(classes))
            &&& harness::member_of(c, "img_size"@) == Some(json::count_array(seq![height, width]))
            &&& harness::member_of(c, "conv1"@) == Some(
                json::Json::Unsigned(root.model.conv1 as u64),
            )
            &&& harness::member_of(c, "conv2"@) == Some(
                json::Json::Unsigned(root.model.conv2 as u64),
            )
            &&& harness::member_of(c, "hidden"@) == Some(
                json::Json::Unsigned(
                    if widths.len() > 0 {
                        widths[0] as u64
                    } else {
                        64
                    },
                ),
            )
        }),
{
    lemma_setting_names();
}

/// The file of a confusion matrix holds the names of the classes and every cell of
/// the matrix, row by row.
pub proof fn law_matrix_file_tells(classes: Seq<Seq<char>>, matrix: Seq<Seq<u32>>)
    ensures
        ({
            let file = matrix_file(classes, matrix);
            &&& harness::member_of(file, "labels"@) == Some(json::text_array(classes))
            &&& harness::member_of(file, "matrix"@) is Some
            &&& harness::member_of(file, "matrix"@)->0 matches json::Json::Array(rows)
                && rows.len() == matrix.len() && forall|a: int|
                0 <= a < matrix.len() ==> (#[trigger] rows[a] matches json::Json::Array(cells)
                    && cells.len() == matrix[a].len() && forall|p: int|
                    0 <= p < cells.len() ==> #[trigger] cells[p] == json::Json::Unsigned(
                        matrix[a][p] as u64,
                    ))
        }),
{
    lemma_setting_names();
}

/// What an epoch saves goes to the directory of the run, under names that carry the
/// number of the epoch; the model is always saved under the same name.
pub proof fn law_outputs_have_their_places(s: SessionState)
    ensures
        match s.job() {
            Job::SaveMatrix { path, text } => {
                let name = path.last();
                &&& path.drop_last() == s.run.dir.push("artifacts"@)
                &&& text::value_of(name.subrange(8, name.len() - 5)) == s.schedule.epoch
                &&& name.take(8) == "cm-epoch"@
                &&& name.skip(name.len() - 5) == ".json"@
                &&& json::json_text(s.matrix) == Some(text) || json::json_text(s.matrix) is None
            },
            Job::SaveGrid { path } => {
                let name = path.last();
                &&& path.drop_last() == s.run.dir.push("artifacts"@)
                &&& text::value_of(name.subrange(13, name.len() - 4)) == s.schedule.epoch
                &&& name.take(13) == "samples-epoch"@
                &&& name.skip(name.len() - 4) == ".png"@
            },
            Job::SaveCheckpoint { path, text } => {
                &&& path == s.run.dir.push("checkpoints"@).push("best.json"@)
                &&& json::json_pretty(s.checkpoint) == Some(text) || json::json_pretty(
                    s.checkpoint,
                ) is None
            },
            _ => true,
        },
{
    let e = s.schedule.epoch as nat;
    text::law_decimal_reads_back(e);
    reveal_strlit("cm-epoch");
    reveal_strlit(".json");
    reveal_strlit("samples-epoch");
    reveal_strlit(".png");
    match s.job() {
        Job::SaveMatrix { path, text } => {
            let name = path.last();
            assert(path.drop_last() =~= s.run.dir.push("artifacts"@));
            assert(name.subrange(8, name.len() - 5) =~= text::decimal(e));
            assert(name.take(8) =~= "cm-epoch"@);
            assert(name.skip(name.len() - 5) =~= ".json"@);
        },
        Job::SaveGrid { path } => {
            let name = path.last();
            assert(path.drop_last() =~= s.run.dir.push("artifacts"@));
            assert(name.subrange(13, name.len() - 4) =~= text::decimal(e));
            assert(name.take(13) =~= "samples-epoch"@);
            assert(name.skip(name.len() - 4) =~= ".png"@);
        },
        _ => {},
    }
}

/// The matrix that an epoch saves is the one of its own predictions.
pub proof fn law_saved_matrix_is_of_the_epoch(
    s: SessionState,
    outcomes: Seq<(usize, usize)>,
    loss: harness::Measure,
    acc: harness::Measure,
    mem: Option<harness::Measure>,
)
    requires
        s.job() is Validate,
    ensures
        ({
            let t = s.predicted(outcomes).validated(loss, acc, mem);
            &&& t.job() is SaveMatrix
            &&& t.matrix == matrix_file(s.classes, model::matrix_of(outcomes, s.classes.len()))
            &&& t.schedule.epoch == s.schedule.epoch
        }),
{
}

/// The metrics have their names, values, steps and epochs: a batch records its loss
/// at the next step, a validation its loss and accuracy at one, and the memory in
/// use, where it is known, at the one after.
pub proof fn law_metrics_have_their_names(
    s: SessionState,
    loss: harness::Measure,
    acc: harness::Measure,
    mb: harness::Measure,
)
    ensures
        ({
            let (step, epoch) = (s.run.step, s.schedule.epoch);
            let trained = s.records(Answer::Trained(loss));
            let validated = s.records(Answer::Validated { loss, acc, mem: Some(mb) });
            let plain = s.records(Answer::Validated { loss, acc, mem: None });
            let record = |step: nat, name: Seq<char>, value: harness::Measure|
                harness::MetricRecord { step, epoch, name, value };
            &&& trained =~= seq![record(step + 1, "loss/train"@, loss)]
            &&& plain =~= seq![
                record(step + 1, "loss/val"@, loss),
                record(step + 1, "acc/val"@, acc),
            ]
            &&& validated =~= seq![
                record(step + 1, "loss/val"@, loss),
                record(step + 1, "acc/val"@, acc),
                record(step + 2, "mem/gpu_mb"@, mb),
            ]
        }),
{
}

/// A run ends with a line that tells its best loss, and with its status: cancelled
/// where it was cancelled, and well otherwise.
pub proof fn law_end_tells_best_and_status(s: SessionState, finished_at: Seq<char>)
    ensures
        s.best matches Some(best) ==> s.best_line() == "best val loss: "@ + best.text,
        s.best is None ==> s.best_line() == "best val loss: inf"@,
        s.run.control.cancel ==> s.status() == "cancelled"@,
        !s.run.control.cancel ==> s.status() == "ok"@,
        s.finish_acts(finished_at) == s.run.info_acts(s.best_line()) + s.run.finish_acts(
            s.status(),
            finished_at,
        ),
{
    reveal_strlit("best val loss: ");
    reveal_strlit("inf");
    reveal_strlit("best val loss: inf");
    assert("best val loss: "@ + "inf"@ =~= "best val loss: inf"@);
}

/// The batches of an epoch begin with the first row and end with the last, without
/// a gap, and only the last may be short.
pub proof fn law_batches_line_up(rows: int, batch: int, k: int)
    requires
        rows >= 0,
        batch >= 1,
        0 <= k < batch_count(rows, batch),
    ensures
        batch_start(rows, batch, 0) == 0,
        batch_start(rows, batch, k) < rows,
        batch_start(rows, batch, k) < batch_start(rows, batch, k + 1) <= rows,
        k + 1 < batch_count(rows, batch) ==> batch_start(rows, batch, k + 1) - batch_start(
            rows,
            batch,
            k,
        ) == batch,
        k + 1 == batch_count(rows, batch) ==> batch_start(rows, batch, k + 1) == rows
            && batch_start(rows, batch, k + 1) - batch_start(rows, batch, k) <= batch,
{
    let count = batch_count(rows, batch);
    let t = rows + batch - 1;
    vstd::arithmetic::div_mod::lemma_fundamental_div_mod(t, batch);
    vstd::arithmetic::div_mod::lemma_mod_bound(t, batch);
    assert(t == batch * count + t % batch);
    assert(0 * batch == 0);
    assert((k + 1) * batch == k * batch + batch) by (nonlinear_arith);
    assert(k * batch < rows && (k + 1 < count ==> (k + 1) * batch < rows) && (k + 1 == count ==> (k
        + 1) * batch >= rows) && k * batch >= 0) by (nonlinear_arith)
        requires
            0 <= k < count,
            batch >= 1,
            rows + batch - 1 == batch * count + t % batch,
            0 <= t % batch < batch,
    ;
}

/// The counters have room as long as they are below half of what they can hold.
pub proof fn law_room_is_ample(s: SessionState)
    requires
        s.run.step < 0x7FFF_FFFF_FFFF_FFFF,
        forall|i: int|
            0 <= i < s.run.stats.len() ==> (#[trigger] s.run.stats[i]).1.count
                < 0x7FFF_FFFF_FFFF_FFFF,
    ensures
        s.has_room(),
{
}

/// The names and values of records.
pub open spec fn values_in(records: Seq<harness::MetricRecord>) -> Seq<
    (Seq<char>, harness::Measure),
> {
    Seq::new(records.len(), |i: int| (records[i].name, records[i].value))
}

/// What is known of the metrics of a run is what its records tell: each metric is
/// known by exactly the values that were recorded of it.
pub proof fn law_statistics_follow_the_records(s: SessionState, answers: Seq<Answer>)
    ensures
        s.after_all(answers).run.stats == harness::with_values(
            s.run.stats,
            values_in(s.all_records(answers)),
        ),
    decreases answers.len(),
{
    if answers.len() == 0 {
        assert(values_in(s.all_records(answers)) =~= Seq::empty());
    } else {
        let front = answers.drop_last();
        law_statistics_follow_the_records(s, front);
        let t = s.after_all(front);
        let last = answers.last();
        let (before, more) = (values_in(s.all_records(front)), values_in(t.records(last)));
        assert(values_in(s.all_records(answers)) =~= before + more);
        harness::law_values_add_up(s.run.stats, before, more);
        match last {
            Answer::Trained(loss) => {
                assert(more =~= train_values(loss));
            },
            Answer::Validated { loss, acc, mem } => {
                let values = val_values(loss, acc);
                match mem {
                    Some(mb) => {
                        assert(more =~= values + mem_values(mb));
                        harness::law_values_add_up(t.run.stats, values, mem_values(mb));
                    },
                    None => {
                        assert(more =~= values);
                    },
                }
            },
            _ => {
                assert(more =~= Seq::empty());
            },
        }
    }
}

/// Whatever a session is told, it keeps what it is, and lists every artifact that
/// was saved.
pub proof fn law_session_keeps_what_it_is(s: SessionState, answer: Answer)
    ensures
        s.after(answer).classes == s.classes,
        s.after(answer).checkpoint == s.checkpoint,
        s.after(answer).run.name == s.run.name,
        s.after(answer).run.dir == s.run.dir,
        s.after(answer).run.id == s.run.id,
        s.after(answer).run.total_epochs == s.run.total_epochs,
        s.after(answer).run.device == s.run.device,
        s.after(answer).run.started_at == s.run.started_at,
        s.after(answer).run.protocol == s.run.protocol,
        match answer {
            Answer::MatrixSaved(path) => s.after(answer).run.artifacts == s.run.artifacts.push(
                ("confusion-matrix"@, path),
            ),
            Answer::GridSaved(Some(path)) => s.after(answer).run.artifacts == s.run.artifacts.push(
                ("image-grid"@, path),
            ),
            _ => s.after(answer).run.artifacts == s.run.artifacts,
        },
        answer matches Answer::Told(cmd) ==> s.after(answer).run.control == harness::obeyed(
            s.run.control,
            cmd,
        ),
        !(answer is Told) ==> s.after(answer).run.control == s.run.control,
        s.epoch_acts() == s.run.passing_acts(
            s.schedule.epoch,
            s.schedule.stage == Stage::Boundary(true),
        ),
{
}

} // verus!
