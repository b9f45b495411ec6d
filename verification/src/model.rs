//! The decisions around the models: which one is trained, on which device, and
//! how its predictions are counted.
use vstd::prelude::*;
use vstd::string::StringExecFns;

use crate::config::Root;
use crate::paths;
use crate::protocol::{Emitter, Stream};
use crate::text;

verus! {

// ---------------------------------------------------------------------------
// The layers of the tabular model.
// ---------------------------------------------------------------------------

/// The widths that the values pass through: the input, the hidden layers, the
/// output.
pub open spec fn widths(in_dim: usize, hidden: Seq<usize>, out_dim: usize) -> Seq<usize> {
    seq![in_dim] + hidden + seq![out_dim]
}

/// The input and output width of each linear layer.
pub open spec fn layer_shapes_of(
    in_dim: usize,
    hidden: Seq<usize>,
    out_dim: usize,
) -> Seq<(usize, usize)> {
    Seq::new(
        hidden.len() + 1,
        |i: int| (widths(in_dim, hidden, out_dim)[i], widths(in_dim, hidden, out_dim)[i + 1]),
    )
}

/// The input and output width of each linear layer; without hidden layers there
/// is one that leads from the input to the output.
pub fn layer_shapes(in_dim: usize, hidden: &Vec<usize>, out_dim: usize) -> (r: Vec<(usize, usize)>)
    ensures
        r@ == layer_shapes_of(in_dim, hidden@, out_dim),
{
    let ghost w = widths(in_dim, hidden@, out_dim);
    let mut r: Vec<(usize, usize)> = Vec::new();
    let mut from = in_dim;
    let mut i: usize = 0;
    while i < hidden.len()
        invariant
            i <= hidden@.len(),
            w == widths(in_dim, hidden@, out_dim),
            from == w[i as int],
            r@.len() == i,
            forall|j: int| 0 <= j < i ==> #[trigger] r@[j] == (w[j], w[j + 1]),
        decreases hidden@.len() - i,
    {
        r.push((from, hidden[i]));
        from = hidden[i];
        i += 1;
    }
    r.push((from, out_dim));
    assert(r@ =~= layer_shapes_of(in_dim, hidden@, out_dim));
    r
}

/// The layers form a chain from the input to the output: each takes what the
/// one before it gives.
pub proof fn law_layers_chain(in_dim: usize, hidden: Seq<usize>, out_dim: usize)
    ensures
        ({
            let shapes = layer_shapes_of(in_dim, hidden, out_dim);
            &&& shapes.len() == hidden.len() + 1
            &&& shapes[0].0 == in_dim
            &&& shapes.last().1 == out_dim
            &&& forall|i: int|
                0 <= i < hidden.len() ==> shapes[i].1 == #[trigger] hidden[i] && shapes[i + 1].0
                    == hidden[i]
        }),
{
}

// ---------------------------------------------------------------------------
// Counting predictions.
// ---------------------------------------------------------------------------

/// The actual and the predicted class of each sample that has both.
pub open spec fn outcomes(preds: Seq<i64>, targets: Seq<usize>) -> Seq<(usize, usize)> {
    Seq::new(
        if preds.len() < targets.len() {
            preds.len()
        } else {
            targets.len()
        },
        |i: int| (targets[i], preds[i] as usize),
    )
}

/// How many samples of one class were predicted as another.
pub open spec fn cell(outcomes: Seq<(usize, usize)>, actual: usize, predicted: usize) -> nat {
    outcomes.to_multiset().count((actual, predicted))
}

/// How many samples of the classes below `n_classes` were predicted right.
pub open spec fn hits(outcomes: Seq<(usize, usize)>, n_classes: nat) -> nat {
    outcomes.filter(|o: (usize, usize)| o.0 == o.1 && o.0 < n_classes).len()
}

/// The confusion matrix: a row for each actual class, a column for each
/// predicted one.
pub open spec fn matrix_of(outcomes: Seq<(usize, usize)>, n_classes: nat) -> Seq<Seq<u32>> {
    Seq::new(
        n_classes,
        |a: int| Seq::new(n_classes, |p: int| cell(outcomes, a as usize, p as usize) as u32),
    )
}

/// The rows of a matrix.
pub open spec fn rows_of(matrix: Seq<Vec<u32>>) -> Seq<Seq<u32>> {
    Seq::new(matrix.len(), |a: int| matrix[a]@)
}

proof fn lemma_cells_push(s: Seq<(usize, usize)>, o: (usize, usize))
    ensures
        forall|a: usize, b: usize|
            #[trigger] cell(s.push(o), a, b) == cell(s, a, b) + if o == (a, b) {
                1nat
            } else {
                0nat
            },
        forall|a: usize, b: usize| #[trigger] cell(s, a, b) <= s.len(),
{
    broadcast use vstd::seq_lib::group_to_multiset_ensures;
    broadcast use vstd::multiset::group_multiset_axioms;

    assert forall|a: usize, b: usize| #[trigger] cell(s, a, b) <= s.len() by {
        assert(s.to_multiset().count((a, b)) <= s.to_multiset().len());
    }
}

proof fn lemma_hits_push(s: Seq<(usize, usize)>, o: (usize, usize), n_classes: nat)
    ensures
        hits(s.push(o), n_classes) == hits(s, n_classes) + if o.0 == o.1 && o.0 < n_classes {
            1nat
        } else {
            0nat
        },
        hits(s, n_classes) <= s.len(),
{
    reveal(Seq::filter);
    assert(s.push(o).drop_last() =~= s);
    s.lemma_filter_len(|o: (usize, usize)| o.0 == o.1 && o.0 < n_classes);
}

/// The confusion matrix (a row for each actual class, a column for each
/// predicted one) and the count of right predictions. A sample whose actual or
/// predicted class has no place in the matrix is left out of both.
pub fn confusion(preds: &[i64], targets: &[usize], n_classes: usize) -> (r: (Vec<Vec<u32>>, usize))
    requires
        outcomes(preds@, targets@).len() <= u32::MAX,
    ensures
        rows_of(r.0@) == matrix_of(outcomes(preds@, targets@), n_classes as nat),
        forall|a: usize, p: usize| #[trigger]
            cell(outcomes(preds@, targets@), a, p) <= u32::MAX,
        r.1 == hits(outcomes(preds@, targets@), n_classes as nat),
{
    let ghost all = outcomes(preds@, targets@);
    let mut cm: Vec<Vec<u32>> = Vec::new();
    let mut k: usize = 0;
    while k < n_classes
        invariant
            k <= n_classes,
            cm@.len() == k,
            forall|a: int|
                0 <= a < k ==> (#[trigger] cm@[a])@.len() == n_classes && forall|p: int|
                    0 <= p < n_classes ==> #[trigger] cm@[a]@[p] == 0,
        decreases n_classes - k,
    {
        let mut row: Vec<u32> = Vec::new();
        let mut j: usize = 0;
        while j < n_classes
            invariant
                j <= n_classes,
                row@.len() == j,
                forall|p: int| 0 <= p < j ==> #[trigger] row@[p] == 0,
            decreases n_classes - j,
        {
            row.push(0);
            j += 1;
        }
        cm.push(row);
        k += 1;
    }
    let mut correct: usize = 0;
    let mut i: usize = 0;
    proof {
        lemma_cells_push(all.take(0), (0usize, 0usize));
        lemma_hits_push(all.take(0), (0usize, 0usize), n_classes as nat);
    }
    while i < preds.len() && i < targets.len()
        invariant
            all == outcomes(preds@, targets@),
            all.len() <= u32::MAX,
            i <= all.len(),
            cm@.len() == n_classes,
            correct == hits(all.take(i as int), n_classes as nat),
            correct <= i,
            forall|a: usize, p: usize| #[trigger] cell(all.take(i as int), a, p) <= i,
            forall|a: int| 0 <= a < n_classes ==> (#[trigger] cm@[a])@.len() == n_classes,
            forall|a: int, p: int|
                0 <= a < n_classes && 0 <= p < n_classes ==> #[trigger] cm@[a]@[p] == cell(
                    all.take(i as int),
                    a as usize,
                    p as usize,
                ),
        decreases all.len() - i,
    {
        let predicted = #[verifier::truncate]
        (preds[i] as usize);
        let actual = targets[i];
        proof {
            assert(all[i as int] == (actual, predicted));
            assert(all.take(i + 1) =~= all.take(i as int).push((actual, predicted)));
            lemma_cells_push(all.take(i as int), (actual, predicted));
            lemma_cells_push(all.take(i + 1), (actual, predicted));
            lemma_hits_push(all.take(i as int), (actual, predicted), n_classes as nat);
        }
        if actual < n_classes && predicted < n_classes {
            if predicted == actual {
                correct += 1;
            }
            let mut row = cm[actual].clone();
            assert(row@ =~= cm@[actual as int]@);
            let count = row[predicted];
            row[predicted] = count + 1;
            cm[actual] = row;
        }
        i += 1;
    }
    assert(all.take(i as int) =~= all);
    assert forall|a: int| 0 <= a < n_classes implies #[trigger] rows_of(cm@)[a] == matrix_of(
        all,
        n_classes as nat,
    )[a] by {
        assert(cm@[a]@ =~= matrix_of(all, n_classes as nat)[a]);
    }
    assert(rows_of(cm@) =~= matrix_of(all, n_classes as nat));
    (cm, correct)
}

/// The cells of a row up to a column, added up.
pub open spec fn row_sum(outcomes: Seq<(usize, usize)>, actual: usize, k: nat) -> nat
    decreases k,
{
    if k == 0 {
        0
    } else {
        row_sum(outcomes, actual, (k - 1) as nat) + cell(outcomes, actual, (k - 1) as usize)
    }
}

/// The cells of the diagonal up to a class, added up.
pub open spec fn diagonal_sum(outcomes: Seq<(usize, usize)>, k: nat) -> nat
    decreases k,
{
    if k == 0 {
        0
    } else {
        diagonal_sum(outcomes, (k - 1) as nat) + cell(outcomes, (k - 1) as usize, (k - 1) as usize)
    }
}

/// How many samples are of a class.
pub open spec fn class_size(outcomes: Seq<(usize, usize)>, actual: usize) -> nat {
    outcomes.filter(|o: (usize, usize)| o.0 == actual).len()
}

proof fn lemma_sums_push(s: Seq<(usize, usize)>, o: (usize, usize), actual: usize, k: nat)
    requires
        k <= usize::MAX,
    ensures
        row_sum(s.push(o), actual, k) == row_sum(s, actual, k) + if o.0 == actual && o.1 < k {
            1nat
        } else {
            0nat
        },
        diagonal_sum(s.push(o), k) == diagonal_sum(s, k) + if o.0 == o.1 && o.1 < k {
            1nat
        } else {
            0nat
        },
    decreases k,
{
    if k > 0 {
        lemma_sums_push(s, o, actual, (k - 1) as nat);
        lemma_cells_push(s, o);
    }
}

proof fn lemma_sums_empty(s: Seq<(usize, usize)>, actual: usize, k: nat)
    requires
        s.len() == 0,
    ensures
        row_sum(s, actual, k) == 0,
        diagonal_sum(s, k) == 0,
    decreases k,
{
    if k > 0 {
        lemma_sums_empty(s, actual, (k - 1) as nat);
        lemma_cells_push(s, (0usize, 0usize));
        assert(cell(s, actual, (k - 1) as usize) <= s.len());
        assert(cell(s, (k - 1) as usize, (k - 1) as usize) <= s.len());
    }
}

/// The diagonal of the matrix adds up to the count of right predictions.
pub proof fn law_diagonal_is_hits(s: Seq<(usize, usize)>, n_classes: usize)
    ensures
        diagonal_sum(s, n_classes as nat) == hits(s, n_classes as nat),
    decreases s.len(),
{
    reveal(Seq::filter);
    if s.len() == 0 {
        lemma_sums_empty(s, 0, n_classes as nat);
    } else {
        let front = s.drop_last();
        assert(front.push(s.last()) =~= s);
        law_diagonal_is_hits(front, n_classes);
        lemma_sums_push(front, s.last(), 0, n_classes as nat);
        lemma_hits_push(front, s.last(), n_classes as nat);
    }
}

/// Where every predicted class has a place in the matrix, the row of a class
/// adds up to how many samples are of that class.
pub proof fn law_row_is_class_size(s: Seq<(usize, usize)>, actual: usize, n_classes: usize)
    requires
        forall|i: int| 0 <= i < s.len() ==> (#[trigger] s[i]).1 < n_classes,
    ensures
        row_sum(s, actual, n_classes as nat) == class_size(s, actual),
    decreases s.len(),
{
    reveal(Seq::filter);
    if s.len() == 0 {
        lemma_sums_empty(s, actual, n_classes as nat);
    } else {
        let front = s.drop_last();
        assert(front.push(s.last()) =~= s);
        law_row_is_class_size(front, actual, n_classes);
        lemma_sums_push(front, s.last(), actual, n_classes as nat);
    }
}

// ---------------------------------------------------------------------------
// The device.
// ---------------------------------------------------------------------------

/// What a device preference asks for.
pub enum Wish {
    Cpu,
    Gpu,
    Auto,
    Unknown(Seq<char>),
}

/// What the `[train] device` key asks for; case and surrounding white space do
/// not matter.
pub open spec fn wish(pref: Seq<char>) -> Wish {
    let word = text::ascii_lower(text::trim(pref));
    if word == "cpu"@ {
        Wish::Cpu
    } else if word == "gpu"@ || word == "cuda"@ || word == "wgpu"@ {
        Wish::Gpu
    } else if word == "auto"@ || word == ""@ {
        Wish::Auto
    } else {
        Wish::Unknown(word)
    }
}

/// Whether it matters for a wish if there is a GPU.
pub open spec fn asks_for_gpu(w: Wish) -> bool {
    w is Gpu || w is Auto
}

/// What is said about a wish that is not granted.
pub open spec fn device_note(w: Wish, adapter: bool) -> Option<Seq<char>> {
    match w {
        Wish::Cpu => None,
        Wish::Gpu => if adapter {
            None
        } else {
            Some(
                "note: device \"gpu\" requested but no compatible GPU adapter found \u{2014} using CPU"@,
            )
        },
        Wish::Auto => None,
        Wish::Unknown(word) => Some(
            "note: unknown device \""@ + word + "\" \u{2014} using CPU"@,
        ),
    }
}

/// Whether a preference makes it necessary to look for a GPU.
pub fn probes_gpu(pref: &str) -> (r: bool)
    ensures
        r == asks_for_gpu(wish(pref@)),
{
    let trimmed = text::trimmed(pref);
    let word = text::ascii_lowered(trimmed.as_str());
    let w = word.as_str();
    !text::same(w, "cpu") && (text::same(w, "gpu") || text::same(w, "cuda") || text::same(w, "wgpu")
        || text::same(w, "auto") || text::same(w, ""))
}

/// Whether to train on the GPU, given whether there is one, and the line for
/// people about a wish that is not granted. A GPU that was asked for and is not
/// there is noted; `auto` falls back silently; an unknown word means the CPU.
pub fn want_gpu(pref: &str, adapter: bool, emitter: &Emitter) -> (r: (
    bool,
    Option<(Stream, String)>,
))
    ensures
        r.0 == (adapter && asks_for_gpu(wish(pref@))),
        match device_note(wish(pref@), adapter) {
            Some(note) => r.1 is Some && (r.1->0).0 == emitter.people_stream() && (r.1->0).1@ == note
                + "\n"@,
            None => r.1 is None,
        },
{
    let trimmed = text::trimmed(pref);
    let word = text::ascii_lowered(trimmed.as_str());
    let w = word.as_str();
    if text::same(w, "cpu") {
        (false, None)
    } else if text::same(w, "gpu") || text::same(w, "cuda") || text::same(w, "wgpu") {
        if adapter {
            (true, None)
        } else {
            let note = emitter.console(
                "note: device \"gpu\" requested but no compatible GPU adapter found \u{2014} using CPU",
            );
            (false, Some(note))
        }
    } else if text::same(w, "auto") || text::same(w, "") {
        (adapter, None)
    } else {
        let mut msg = "note: unknown device \"".to_string();
        msg.append(w);
        msg.append("\" \u{2014} using CPU");
        (false, Some(emitter.console(msg.as_str())))
    }
}

// ---------------------------------------------------------------------------
// The data.
// ---------------------------------------------------------------------------

/// Whether an extension is one of an image file, in whatever case.
pub open spec fn is_image_extension(e: Seq<char>) -> bool {
    let lower = text::ascii_lower(e);
    lower == "png"@ || lower == "jpg"@ || lower == "jpeg"@ || lower == "bmp"@
}

/// Whether a path names an image file, by its extension.
pub open spec fn names_image(path: Seq<char>) -> bool {
    match paths::file_name(path) {
        Some(name) => match paths::extension(name) {
            Some(e) => is_image_extension(e),
            None => false,
        },
        None => false,
    }
}

/// Whether a path names an image file, by its extension.
pub fn has_image_ext(path: &str) -> (r: bool)
    ensures
        r == names_image(path@),
{
    match paths::file_name_of(path) {
        Some(name) => match paths::extension_of(name.as_str()) {
            Some(e) => {
                let lower = text::ascii_lowered(e.as_str());
                let l = lower.as_str();
                text::same(l, "png") || text::same(l, "jpg") || text::same(l, "jpeg")
                    || text::same(l, "bmp")
            },
            None => false,
        },
        None => false,
    }
}

/// What stands at a path.
#[derive(Clone, Copy, Debug, PartialEq, Eq, Structural)]
pub enum PathKind {
    Missing,
    File,
    Directory,
}

/// Where the training data come from, and with that which model is trained: a
/// directory of class directories trains the image model, everything else the
/// tabular one.
pub enum Source {
    Images { path: String },
    Csv { path: String, target: String },
    Synthetic,
}

/// What a training run is to do.
pub struct Plan {
    pub gpu: bool,
    pub note: Option<(Stream, String)>,
    pub source: Source,
}

impl Plan {
    /// The label of the device that was chosen.
    pub fn device_label(&self) -> (r: &'static str)
        ensures
            r@ == if self.gpu {
                "gpu"@
            } else {
                "cpu"@
            },
    {
        if self.gpu {
            "gpu"
        } else {
            "cpu"
        }
    }
}

/// Chooses the device and the source of the data. `kind` says what stands at
/// `[data] path`, and `adapter` whether there is a GPU.
pub fn train(root: &Root, kind: PathKind, adapter: bool, emitter: &Emitter) -> (r: Plan)
    ensures
        r.gpu == (adapter && asks_for_gpu(wish(root.train.device@))),
        match device_note(wish(root.train.device@), adapter) {
            Some(note) => r.note is Some && (r.note->0).0 == emitter.people_stream()
                && (r.note->0).1@ == note + "\n"@,
            None => r.note is None,
        },
        match root.data.path {
            Some(path) => match kind {
                PathKind::Directory => r.source is Images && r.source->Images_path@ == path@,
                PathKind::File => r.source is Csv && r.source->Csv_path@ == path@
                    && r.source->target@ == match root.data.target {
                    Some(target) => target@,
                    None => "label"@,
                },
                PathKind::Missing => r.source is Synthetic,
            },
            None => r.source is Synthetic,
        },
{
    let (gpu, note) = want_gpu(root.train.device.as_str(), adapter, emitter);
    let source = match &root.data.path {
        Some(path) => match kind {
            PathKind::Directory => Source::Images { path: path.clone() },
            PathKind::File => {
                let target = match &root.data.target {
                    Some(target) => target.clone(),
                    None => "label".to_string(),
                };
                Source::Csv { path: path.clone(), target }
            },
            PathKind::Missing => Source::Synthetic,
        },
        None => Source::Synthetic,
    };
    Plan { gpu, note, source }
}

// ---------------------------------------------------------------------------
// Laws.
// ---------------------------------------------------------------------------

/// Each cell of the confusion matrix holds how many samples of the class of its row
/// were predicted as the class of its column.
pub proof fn law_matrix_counts_samples(
    outcomes: Seq<(usize, usize)>,
    n_classes: nat,
    actual: usize,
    predicted: usize,
)
    requires
        actual < n_classes,
        predicted < n_classes,
        outcomes.len() <= u32::MAX,
    ensures
        matrix_of(outcomes, n_classes).len() == n_classes,
        matrix_of(outcomes, n_classes)[actual as int].len() == n_classes,
        matrix_of(outcomes, n_classes)[actual as int][predicted as int] == outcomes.filter(
            |o: (usize, usize)| o == (actual, predicted),
        ).len(),
{
    lemma_cell_counts(outcomes, actual, predicted);
    lemma_cells_push(outcomes, (0usize, 0usize));
    assert(cell(outcomes, actual, predicted) <= outcomes.len());
}

proof fn lemma_cell_counts(s: Seq<(usize, usize)>, actual: usize, predicted: usize)
    ensures
        cell(s, actual, predicted) == s.filter(
            |o: (usize, usize)| o == (actual, predicted),
        ).len(),
    decreases s.len(),
{
    reveal(Seq::filter);
    if s.len() == 0 {
        lemma_cells_push(s, (0usize, 0usize));
        assert(cell(s, actual, predicted) <= s.len());
    } else {
        let front = s.drop_last();
        assert(front.push(s.last()) =~= s);
        lemma_cell_counts(front, actual, predicted);
        lemma_cells_push(front, s.last());
    }
}

/// A prediction counts for the sample at the same place; predictions or samples
/// without a partner do not count.
pub proof fn law_outcomes_pair_up(preds: Seq<i64>, targets: Seq<usize>)
    ensures
        outcomes(preds, targets).len() <= preds.len(),
        outcomes(preds, targets).len() <= targets.len(),
        outcomes(preds, targets).len() == preds.len() || outcomes(preds, targets).len()
            == targets.len(),
        forall|i: int|
            0 <= i < outcomes(preds, targets).len() ==> (#[trigger] outcomes(
                preds,
                targets,
            )[i]).0 == targets[i],
        forall|i: int|
            0 <= i < outcomes(preds, targets).len() && 0 <= preds[i] <= usize::MAX ==> (
            #[trigger] outcomes(preds, targets)[i]).1 == preds[i],
{
}

/// What is right is counted as right: the count of hits is the count of samples
/// whose prediction is their class, among the classes that there are.
pub proof fn law_hits_are_right(preds: Seq<i64>, targets: Seq<usize>, n_classes: nat)
    requires
        preds.len() == targets.len(),
        forall|i: int| 0 <= i < preds.len() ==> #[trigger] preds[i] == targets[i] as int,
        forall|i: int| 0 <= i < targets.len() ==> #[trigger] targets[i] < n_classes,
    ensures
        hits(outcomes(preds, targets), n_classes) == preds.len(),
{
    let all = outcomes(preds, targets);
    assert forall|i: int| 0 <= i < all.len() implies (#[trigger] all[i]).0 == all[i].1 && all[i].0
        < n_classes by {
        assert(preds[i] == targets[i] as int);
    }
    lemma_all_hits(all, n_classes);
}

proof fn lemma_all_hits(s: Seq<(usize, usize)>, n_classes: nat)
    requires
        forall|i: int| 0 <= i < s.len() ==> (#[trigger] s[i]).0 == s[i].1 && s[i].0 < n_classes,
    ensures
        hits(s, n_classes) == s.len(),
    decreases s.len(),
{
    reveal(Seq::filter);
    if s.len() > 0 {
        let front = s.drop_last();
        assert(s[s.len() - 1] == s.last());
        assert forall|i: int| 0 <= i < front.len() implies (#[trigger] front[i]).0 == front[i].1
            && front[i].0 < n_classes by {
            assert(front[i] == s[i]);
        }
        lemma_all_hits(front, n_classes);
        assert(front.push(s.last()) =~= s);
        lemma_hits_push(front, s.last(), n_classes);
    }
}

/// The words for devices: case and surrounding white space do not matter, no word
/// means the same as `auto`, and a word that is not known asks for no GPU.
pub proof fn law_device_words(pref: Seq<char>)
    ensures
        ({
            let word = text::ascii_lower(text::trim(pref));
            let gpu = word == "gpu"@ || word == "cuda"@ || word == "wgpu"@;
            let auto = word == "auto"@ || word.len() == 0;
            &&& asks_for_gpu(wish(pref)) <==> gpu || auto
            &&& device_note(wish(pref), true) is Some <==> !gpu && !auto && word != "cpu"@
            &&& device_note(wish(pref), false) is Some <==> !auto && word != "cpu"@
        }),
{
    reveal_strlit("");
    let word = text::ascii_lower(text::trim(pref));
    assert(word.len() == 0 ==> word =~= ""@);
    reveal_strlit("cpu");
    reveal_strlit("gpu");
    reveal_strlit("cuda");
    reveal_strlit("wgpu");
    reveal_strlit("auto");
    assert("cpu"@.len() == 3 && "gpu"@.len() == 3 && "cuda"@.len() == 4 && "wgpu"@.len() == 4
        && "auto"@.len() == 4 && ""@.len() == 0);
    assert("cpu"@[0] == 'c' && "gpu"@[0] == 'g' && "cuda"@[0] == 'c' && "wgpu"@[0] == 'w'
        && "auto"@[0] == 'a');
}

/// A file is an image by what stands behind the last full stop of its name, in
/// whatever case and whatever directory.
pub proof fn law_images_by_extension(dir: Seq<char>, stem: Seq<char>, ext: Seq<char>)
    requires
        stem.len() > 0,
        !ext.contains('.'),
        paths::is_name(stem + "."@ + ext),
    ensures
        ({
            let lower = text::ascii_lower(ext);
            let image = lower == "png"@ || lower == "jpg"@ || lower == "jpeg"@ || lower == "bmp"@;
            &&& names_image(stem + "."@ + ext) <==> image
            &&& names_image(dir + "/"@ + (stem + "."@ + ext)) <==> image
        }),
        paths::is_name(ext) ==> !names_image(ext),
        paths::is_name("."@ + ext) ==> !names_image("."@ + ext),
{
    paths::law_file_name(dir, stem + "."@ + ext);
    paths::law_extension(stem, ext);
    if paths::is_name(ext) {
        paths::law_file_name(dir, ext);
    }
    if paths::is_name("."@ + ext) {
        paths::law_file_name(dir, "."@ + ext);
    }
}

} // verus!
