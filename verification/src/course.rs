//! Whole training runs: what a run has done when it comes to its end.
use vstd::prelude::*;

use crate::config::Root;
use crate::harness;
use crate::json;
use crate::run_store::RunDir;
use crate::training;
use crate::training::{Answer, Job, Stage};

verus! {

/// What a run has done so far.
pub struct History {
    /// The epoch and the number of each row that was trained on.
    pub rows: Seq<(int, int)>,
    /// The epoch and the loss of each validation.
    pub losses: Seq<(int, harness::Measure)>,
    /// The epochs whose confusion matrix was saved.
    pub matrices: Seq<int>,
    /// The epochs whose sample predictions were saved.
    pub grids: Seq<int>,
    /// The epochs whose model was saved.
    pub checkpoints: Seq<int>,
    /// The epochs that ended.
    pub ended: Seq<int>,
    /// How many times metrics were logged.
    pub logs: nat,
}

/// What a run has done when it begins.
pub open spec fn nothing() -> History {
    History {
        rows: Seq::empty(),
        losses: Seq::empty(),
        matrices: Seq::empty(),
        grids: Seq::empty(),
        checkpoints: Seq::empty(),
        ended: Seq::empty(),
        logs: 0,
    }
}

/// The rows of a batch.
pub open spec fn batch_rows(epoch: int, start: int, end: int) -> Seq<(int, int)> {
    Seq::new((end - start) as nat, |i: int| (epoch, start + i))
}

/// What a run has done after one answer more, to the task that is due.
pub open spec fn noted(h: History, s: training::SessionState, answer: Answer) -> History {
    match (answer, s.asked().job()) {
        (Answer::Trained(_), Job::Train { epoch, start, end }) => History {
            rows: h.rows + batch_rows(epoch as int, start as int, end),
            logs: h.logs + 1,
            ..h
        },
        (Answer::Validated { loss, acc, mem }, Job::Validate { epoch }) => History {
            losses: h.losses.push((epoch as int, loss)),
            logs: h.logs + if mem is Some {
                2nat
            } else {
                1nat
            },
            ..h
        },
        (Answer::MatrixSaved(_), Job::SaveMatrix { path, text }) => History {
            matrices: h.matrices.push(s.schedule.epoch as int),
            ..h
        },
        (Answer::GridSaved(_), Job::SaveGrid { path }) => History {
            grids: h.grids.push(s.schedule.epoch as int),
            ..h
        },
        (Answer::CheckpointSaved, Job::SaveCheckpoint { path, text }) => History {
            checkpoints: h.checkpoints.push(s.schedule.epoch as int),
            ..h
        },
        (Answer::EpochEnded, Job::EndEpoch { epoch }) => if s.run.gate(s.waits())
            == harness::Gate::Open {
            History { ended: h.ended.push(epoch as int), ..h }
        } else {
            h
        },
        _ => h,
    }
}

/// What a run has done after a series of answers.
pub open spec fn history(s: training::SessionState, answers: Seq<Answer>) -> History
    decreases answers.len(),
{
    if answers.len() == 0 {
        nothing()
    } else {
        noted(
            history(s, answers.drop_last()),
            s.after_all(answers.drop_last()),
            answers.last(),
        )
    }
}

/// Whether an answer belongs to the task that is due. A run may be paused and
/// resumed, but it is not cancelled.
pub open spec fn fits(s: training::SessionState, answer: Answer) -> bool {
    match answer {
        Answer::Asked => true,
        Answer::Trained(_) => s.asked().job() is Train,
        Answer::Predicted(_) => s.job() is Validate,
        Answer::Validated { loss, acc, mem } => s.job() is Validate,
        Answer::MatrixSaved(_) => s.job() is SaveMatrix,
        Answer::GridSaved(_) => s.job() is SaveGrid,
        Answer::CheckpointSaved => s.job() is SaveCheckpoint,
        Answer::Told(cmd) => cmd != Some("cancel"@),
        Answer::EpochEnded => s.job() is EndEpoch,
    }
}

/// Whether every answer of a series belongs to the task that was due.
pub open spec fn fit(s: training::SessionState, answers: Seq<Answer>) -> bool
    decreases answers.len(),
{
    answers.len() == 0 || {
        &&& fit(s, answers.drop_last())
        &&& fits(s.after_all(answers.drop_last()), answers.last())
    }
}

/// The numbers from 1 to `n`.
pub open spec fn one_to(n: int) -> Seq<int> {
    Seq::new(n as nat, |i: int| i + 1)
}

/// Whether the loss of validation `k` is a finite number below every number
/// before it.
pub open spec fn is_record(losses: Seq<(int, harness::Measure)>, k: int) -> bool {
    let loss = losses[k].1.real;
    &&& !loss.is_nan()
    &&& loss.bits != 0x7FF0_0000_0000_0000
    &&& forall|j: int|
        0 <= j < k && !(#[trigger] losses[j]).1.real.is_nan() ==> loss.is_less(losses[j].1.real)
}

/// The size of a batch.
pub open spec fn batch_of(root: Root) -> int {
    if root.train.batch_size == 0 {
        1
    } else {
        root.train.batch_size as int
    }
}

/// How far a run is: how many epochs, rows of the current one, validations and
/// outputs lie behind it.
spec fn reached(
    s: training::SessionState,
    h: History,
    root: Root,
    n_train: int,
    images: bool,
) -> bool {
    let c = s.schedule;
    let epochs = root.train.epochs as int;
    let done = c.stage is Done;
    let e = c.epoch as int;
    let before = if done {
        epochs
    } else {
        e - 1
    };
    let validated = before + if c.stage is Matrix || c.stage is Grid || c.stage is Checkpoint
        || c.stage is Boundary {
        1int
    } else {
        0int
    };
    let matrices = before + if c.stage is Grid || c.stage is Checkpoint || c.stage is Boundary {
        1int
    } else {
        0int
    };
    let grids = before + if c.stage is Checkpoint || c.stage is Boundary {
        1int
    } else {
        0int
    };
    &&& c.wf()
    &&& c.epochs == epochs && c.rows == n_train && c.batch == batch_of(root) && c.images == images
    &&& done ==> e == epochs
    &&& !s.run.control.cancel
    &&& s.run.epoch == before
    &&& s.run.step == h.logs
    &&& h.ended =~= one_to(before)
    &&& h.rows.len() == before * n_train + match c.stage {
        Stage::Batches(start) => start as int,
        Stage::Done => 0int,
        _ => n_train,
    }
    &&& forall|i: int|
        0 <= i < h.rows.len() ==> #[trigger] h.rows[i] == (i / n_train + 1, i % n_train)
    &&& h.losses.len() == validated
    &&& forall|k: int| 0 <= k < h.losses.len() ==> (#[trigger] h.losses[k]).0 == k + 1
    &&& h.matrices =~= one_to(matrices)
    &&& h.grids =~= one_to(
        if images {
            grids
        } else {
            0
        },
    )
    &&& s.best == training::best_after(measures(h.losses))
    &&& forall|k: int|
        0 <= k < h.checkpoints.len() ==> 1 <= #[trigger] h.checkpoints[k] <= h.losses.len()
    &&& forall|j: int, k: int|
        0 <= j < k < h.checkpoints.len() ==> #[trigger] h.checkpoints[j]
            < #[trigger] h.checkpoints[k]
    &&& forall|k: int|
        0 <= k < h.losses.len() && (k + 1 < h.losses.len() || !pending(c.stage)) ==> (
        #[trigger] is_record(h.losses, k) <==> h.checkpoints.contains(k + 1))
    &&& pending(c.stage) ==> {
        &&& !h.checkpoints.contains(h.losses.len() as int)
        &&& is_record(h.losses, h.losses.len() - 1) <==> match c.stage {
            Stage::Matrix(improved) => improved,
            Stage::Grid(improved) => improved,
            _ => true,
        }
    }
}

/// Whether the checkpoint of an epoch may still follow.
spec fn pending(stage: Stage) -> bool {
    stage is Matrix || stage is Grid || stage is Checkpoint
}

spec fn measures(losses: Seq<(int, harness::Measure)>) -> Seq<harness::Measure> {
    Seq::new(losses.len(), |i: int| losses[i].1)
}

/// A loss is the best so far if it is a finite number below every number before.
proof fn lemma_record(losses: Seq<(int, harness::Measure)>, epoch: int, loss: harness::Measure)
    ensures
        is_record(losses.push((epoch, loss)), losses.len() as int) <==> training::improves(
            training::best_after(measures(losses)),
            loss,
        ),
        training::best_after(measures(losses.push((epoch, loss)))) == if training::improves(
            training::best_after(measures(losses)),
            loss,
        ) {
            Some(loss)
        } else {
            training::best_after(measures(losses))
        },
{
    let front = measures(losses);
    let all = losses.push((epoch, loss));
    let n = losses.len() as int;
    assert(measures(all).drop_last() =~= front);
    assert(measures(all).last() == loss);
    training::law_best_is_least(front);
    match training::best_after(front) {
        Some(best) => {
            let k = choose|k: int| 0 <= k < front.len() && front[k] == best;
            if is_record(all, n) {
                assert(all[k].1 == best);
                assert(loss.real.is_less(best.real));
            }
            if loss.real.is_less(best.real) {
                assert forall|j: int|
                    0 <= j < n && !(#[trigger] all[j]).1.real.is_nan() implies loss.real.is_less(
                    all[j].1.real,
                ) by {
                    assert(!front[j].real.is_less(best.real));
                }
            }
        },
        None => {
            if !loss.real.is_nan() && loss.real.rank() < 0x7FF0_0000_0000_0000 {
                assert forall|j: int|
                    0 <= j < n && !(#[trigger] all[j]).1.real.is_nan() implies loss.real.is_less(
                    all[j].1.real,
                ) by {
                    assert(front[j].real.is_nan() || front[j].real.rank()
                        == 0x7FF0_0000_0000_0000);
                }
            }
        },
    }
}

proof fn lemma_records_stay(losses: Seq<(int, harness::Measure)>, more: (int, harness::Measure))
    ensures
        forall|k: int|
            0 <= k < losses.len() ==> #[trigger] is_record(losses.push(more), k) == is_record(
                losses,
                k,
            ),
{
    let all = losses.push(more);
    assert forall|k: int| 0 <= k < losses.len() implies #[trigger] is_record(all, k) == is_record(
        losses,
        k,
    ) by {
        assert(all[k] == losses[k]);
        if is_record(all, k) {
            assert forall|j: int|
                0 <= j < k && !(#[trigger] losses[j]).1.real.is_nan() implies losses[k].1.real
                .is_less(losses[j].1.real) by {
                assert(all[j] == losses[j]);
            }
        }
        if is_record(losses, k) {
            assert forall|j: int|
                0 <= j < k && !(#[trigger] all[j]).1.real.is_nan() implies all[k].1.real.is_less(
                all[j].1.real,
            ) by {
                assert(all[j] == losses[j]);
            }
        }
    }
}

proof fn lemma_trained(
    s: training::SessionState,
    h: History,
    root: Root,
    n_train: int,
    images: bool,
    loss: harness::Measure,
)
    requires
        reached(s, h, root, n_train, images),
        s.asked().job() is Train,
    ensures
        reached(s.trained(loss), noted(h, s, Answer::Trained(loss)), root, n_train, images),
{
    let start = s.schedule.stage->Batches_0 as int;
    let e = s.schedule.epoch as int;
    let next = noted(h, s, Answer::Trained(loss));
    let end = training::batch_end(n_train, s.schedule.batch as int, start);
    assert(start < n_train);
    let base = (e - 1) * n_train;
    assert(next.rows == h.rows + batch_rows(e, start, end));
    assert forall|i: int| 0 <= i < next.rows.len() implies #[trigger] next.rows[i] == (
        i / n_train + 1,
        i % n_train,
    ) by {
        if i < h.rows.len() {
            assert(next.rows[i] == h.rows[i]);
        } else {
            let r = i - base;
            assert(next.rows[i] == (e, r));
            vstd::arithmetic::div_mod::lemma_fundamental_div_mod_converse(i, n_train, e - 1, r);
        }
    }
}

proof fn lemma_validated(
    s: training::SessionState,
    h: History,
    root: Root,
    n_train: int,
    images: bool,
    loss: harness::Measure,
    acc: harness::Measure,
    mem: Option<harness::Measure>,
)
    requires
        reached(s, h, root, n_train, images),
        s.job() is Validate,
    ensures
        reached(
            s.validated(loss, acc, mem),
            noted(h, s, Answer::Validated { loss, acc, mem }),
            root,
            n_train,
            images,
        ),
{
    let e = s.schedule.epoch as int;
    let n = h.losses.len() as int;
    let t = s.validated(loss, acc, mem);
    let next = noted(h, s, Answer::Validated { loss, acc, mem });
    lemma_record(h.losses, e, loss);
    lemma_records_stay(h.losses, (e, loss));
    assert(next.losses == h.losses.push((e, loss)));
    assert(t.run.step == next.logs);
    if next.checkpoints.contains(n + 1) {
        let k = choose|k: int| 0 <= k < h.checkpoints.len() && h.checkpoints[k] == n + 1;
        assert(h.checkpoints[k] <= n);
    }
    assert forall|k: int| 0 <= k < next.losses.len() && k + 1 < next.losses.len() implies (
    #[trigger] is_record(next.losses, k) <==> next.checkpoints.contains(k + 1)) by {
        assert(is_record(h.losses, k) <==> h.checkpoints.contains(k + 1));
    }
}

proof fn lemma_outputs(
    s: training::SessionState,
    h: History,
    root: Root,
    n_train: int,
    images: bool,
    answer: Answer,
)
    requires
        reached(s, h, root, n_train, images),
        fits(s, answer),
        answer is MatrixSaved || answer is GridSaved,
    ensures
        reached(s.after(answer), noted(h, s, answer), root, n_train, images),
{
    let next = noted(h, s, answer);
    let n = h.losses.len() as int;
    let t = s.after(answer);
    assert(next.losses == h.losses && next.checkpoints == h.checkpoints);
    if !pending(t.schedule.stage) {
        assert(!is_record(h.losses, n - 1));
        assert(!h.checkpoints.contains(n));
    }
}

proof fn lemma_checkpoint(
    s: training::SessionState,
    h: History,
    root: Root,
    n_train: int,
    images: bool,
)
    requires
        reached(s, h, root, n_train, images),
        s.job() is SaveCheckpoint,
    ensures
        reached(
            s.checkpoint_saved(),
            noted(h, s, Answer::CheckpointSaved),
            root,
            n_train,
            images,
        ),
{
    let next = noted(h, s, Answer::CheckpointSaved);
    let n = h.losses.len() as int;
    assert(s.schedule.epoch == n);
    assert(next.checkpoints == h.checkpoints.push(n));
    let m = h.checkpoints.len() as int;
    assert(next.checkpoints[m] == n);
    assert forall|j: int| 0 <= j < m implies #[trigger] next.checkpoints[j] < n by {
        assert(next.checkpoints[j] == h.checkpoints[j]);
        assert(h.checkpoints.contains(h.checkpoints[j]));
    }
    assert forall|j: int, k: int| 0 <= j < k < next.checkpoints.len() implies #[trigger]
        next.checkpoints[j] < #[trigger] next.checkpoints[k] by {
        if k < m {
            assert(h.checkpoints[j] < h.checkpoints[k]);
        }
    }
    assert forall|k: int| 0 <= k < n implies (#[trigger] is_record(next.losses, k)
        <==> next.checkpoints.contains(k + 1)) by {
        if k + 1 < n {
            assert(is_record(h.losses, k) <==> h.checkpoints.contains(k + 1));
            if h.checkpoints.contains(k + 1) {
                let j = choose|j: int| 0 <= j < m && h.checkpoints[j] == k + 1;
                assert(next.checkpoints[j] == k + 1);
            }
            if next.checkpoints.contains(k + 1) {
                let j = choose|j: int| 0 <= j < m + 1 && next.checkpoints[j] == k + 1;
                assert(h.checkpoints[j] == k + 1);
            }
        } else {
            assert(next.checkpoints.contains(n));
        }
    }
}

proof fn lemma_ended(
    s: training::SessionState,
    h: History,
    root: Root,
    n_train: int,
    images: bool,
)
    requires
        reached(s, h, root, n_train, images),
        s.job() is EndEpoch,
    ensures
        reached(s.epoch_ended(), noted(h, s, Answer::EpochEnded), root, n_train, images),
{
    let e = s.schedule.epoch as int;
    assert(e * n_train == (e - 1) * n_train + n_train) by (nonlinear_arith);
}

proof fn lemma_step(
    s: training::SessionState,
    h: History,
    root: Root,
    n_train: int,
    images: bool,
    answer: Answer,
)
    requires
        reached(s, h, root, n_train, images),
        fits(s, answer),
    ensures
        reached(s.after(answer), noted(h, s, answer), root, n_train, images),
{
    match answer {
        Answer::Asked => {},
        Answer::Trained(loss) => lemma_trained(s, h, root, n_train, images, loss),
        Answer::Predicted(_) => {},
        Answer::Validated { loss, acc, mem } => lemma_validated(
            s,
            h,
            root,
            n_train,
            images,
            loss,
            acc,
            mem,
        ),
        Answer::MatrixSaved(_) => lemma_outputs(s, h, root, n_train, images, answer),
        Answer::GridSaved(_) => lemma_outputs(s, h, root, n_train, images, answer),
        Answer::CheckpointSaved => lemma_checkpoint(s, h, root, n_train, images),
        Answer::Told(cmd) => {},
        Answer::EpochEnded => lemma_ended(s, h, root, n_train, images),
    }
}

proof fn lemma_reached(
    s: training::SessionState,
    answers: Seq<Answer>,
    root: Root,
    n_train: int,
    images: bool,
)
    requires
        reached(s, nothing(), root, n_train, images),
        fit(s, answers),
    ensures
        reached(s.after_all(answers), history(s, answers), root, n_train, images),
    decreases answers.len(),
{
    if answers.len() > 0 {
        let front = answers.drop_last();
        lemma_reached(s, front, root, n_train, images);
        lemma_step(
            s.after_all(front),
            history(s, front),
            root,
            n_train,
            images,
            answers.last(),
        );
    }
}

/// A run that is not cancelled, however often it is paused, comes to its end only
/// when it has done everything: it has trained on every row of every epoch, once
/// and in order, and validated after each epoch; it has saved a confusion matrix
/// for each and, on images, sample predictions; it has saved the model after
/// exactly those epochs whose loss was below every loss before; and it has ended
/// every epoch that is configured. It then finishes well.
pub proof fn law_run_does_everything(
    name: Seq<char>,
    dir: RunDir,
    root: Root,
    device: Seq<char>,
    started_at: Seq<char>,
    protocol: bool,
    n_train: usize,
    images: bool,
    classes: Seq<Seq<char>>,
    checkpoint: json::Json,
    answers: Seq<Answer>,
)
    requires
        ({
            let run = harness::RunState::fresh(
                name,
                dir,
                root.train.epochs,
                device,
                started_at,
                protocol,
            );
            let s = training::begun(run, root, n_train, images, classes, checkpoint);
            fit(s, answers) && s.after_all(answers).asked().job() == Job::Finish
        }),
    ensures
        ({
            let run = harness::RunState::fresh(
                name,
                dir,
                root.train.epochs,
                device,
                started_at,
                protocol,
            );
            let s = training::begun(run, root, n_train, images, classes, checkpoint);
            let t = s.after_all(answers);
            let h = history(s, answers);
            let epochs = root.train.epochs as int;
            &&& h.ended == one_to(epochs)
            &&& h.rows.len() == epochs * n_train
            &&& forall|i: int|
                0 <= i < h.rows.len() ==> #[trigger] h.rows[i] == (
                    i / n_train as int + 1,
                    i % n_train as int,
                )
            &&& h.losses.len() == epochs
            &&& forall|k: int| 0 <= k < epochs ==> (#[trigger] h.losses[k]).0 == k + 1
            &&& h.matrices == one_to(epochs)
            &&& h.grids == if images {
                one_to(epochs)
            } else {
                Seq::empty()
            }
            &&& forall|j: int, k: int|
                0 <= j < k < h.checkpoints.len() ==> #[trigger] h.checkpoints[j]
                    < #[trigger] h.checkpoints[k]
            &&& forall|e: int|
                #[trigger] h.checkpoints.contains(e) <==> 1 <= e <= epochs && is_record(
                    h.losses,
                    e - 1,
                )
            &&& t.run.epoch == epochs
            &&& t.run.step == h.logs
            &&& t.status() == "ok"@
        }),
{
    let run = harness::RunState::fresh(
        name,
        dir,
        root.train.epochs,
        device,
        started_at,
        protocol,
    );
    let s = training::begun(run, root, n_train, images, classes, checkpoint);
    lemma_begun(run, root, n_train, images, classes, checkpoint);
    lemma_reached(s, answers, root, n_train as int, images);
    let t = s.after_all(answers);
    let h = history(s, answers);
    let epochs = root.train.epochs as int;
    assert(t.schedule.stage is Done);
    assert forall|e: int| #[trigger] h.checkpoints.contains(e) <==> 1 <= e <= epochs && is_record(
        h.losses,
        e - 1,
    ) by {
        if h.checkpoints.contains(e) {
            let k = choose|k: int| 0 <= k < h.checkpoints.len() && h.checkpoints[k] == e;
            assert(1 <= h.checkpoints[k] <= epochs);
        }
        if 1 <= e <= epochs {
            assert(is_record(h.losses, e - 1) <==> h.checkpoints.contains(e - 1 + 1));
        }
    }
}

proof fn lemma_begun(
    run: harness::RunState,
    root: Root,
    n_train: usize,
    images: bool,
    classes: Seq<Seq<char>>,
    checkpoint: json::Json,
)
    requires
        run.epoch == 0,
        run.step == 0,
        !run.control.cancel,
    ensures
        reached(
            training::begun(run, root, n_train, images, classes, checkpoint),
            nothing(),
            root,
            n_train as int,
            images,
        ),
{
    assert(measures(nothing().losses) =~= Seq::empty());
    assert(0 * n_train as int == 0);
}

/// The batches of a run: each takes up where the one before stopped and has as
/// many rows as configured, or all that are left of the epoch. Nothing is left out
/// and nothing is trained on in an epoch that is not configured.
pub proof fn law_batches_are_full(
    run: harness::RunState,
    root: Root,
    n_train: usize,
    images: bool,
    classes: Seq<Seq<char>>,
    checkpoint: json::Json,
    answers: Seq<Answer>,
)
    requires
        run.epoch == 0,
        run.step == 0,
        !run.control.cancel,
        fit(training::begun(run, root, n_train, images, classes, checkpoint), answers),
    ensures
        ({
            let s = training::begun(run, root, n_train, images, classes, checkpoint);
            match s.after_all(answers).asked().job() {
                Job::Train { epoch, start, end } => {
                    &&& 1 <= epoch <= root.train.epochs
                    &&& history(s, answers).rows.len() == (epoch - 1) * n_train + start
                    &&& start < end <= n_train
                    &&& end - start <= batch_of(root)
                    &&& end - start < batch_of(root) ==> end == n_train
                },
                _ => true,
            }
        }),
{
    let s = training::begun(run, root, n_train, images, classes, checkpoint);
    lemma_begun(run, root, n_train, images, classes, checkpoint);
    lemma_reached(s, answers, root, n_train as int, images);
}

/// At any time the best loss of a run is one of its losses that no other is below;
/// there is none only while no loss was a finite number.
pub proof fn law_best_loss(
    run: harness::RunState,
    root: Root,
    n_train: usize,
    images: bool,
    classes: Seq<Seq<char>>,
    checkpoint: json::Json,
    answers: Seq<Answer>,
)
    requires
        run.epoch == 0,
        run.step == 0,
        !run.control.cancel,
        fit(training::begun(run, root, n_train, images, classes, checkpoint), answers),
    ensures
        ({
            let s = training::begun(run, root, n_train, images, classes, checkpoint);
            let losses = history(s, answers).losses;
            match s.after_all(answers).best {
                Some(best) => !best.real.is_nan() && (exists|k: int|
                    0 <= k < losses.len() && (#[trigger] losses[k]).1 == best) && forall|k: int|
                    0 <= k < losses.len() ==> !(#[trigger] losses[k]).1.real.is_less(best.real),
                None => forall|k: int|
                    0 <= k < losses.len() ==> (#[trigger] losses[k]).1.real.is_nan()
                        || losses[k].1.real.bits == 0x7FF0_0000_0000_0000,
            }
        }),
{
    let s = training::begun(run, root, n_train, images, classes, checkpoint);
    lemma_begun(run, root, n_train, images, classes, checkpoint);
    lemma_reached(s, answers, root, n_train as int, images);
    let losses = history(s, answers).losses;
    let all = measures(losses);
    training::law_best_is_least(all);
    assert forall|k: int| 0 <= k < losses.len() implies #[trigger] losses[k].1 == all[k] by {}
    if let Some(best) = s.after_all(answers).best {
        let k = choose|k: int| 0 <= k < all.len() && all[k] == best;
        assert(losses[k].1 == best);
    }
}

/// What a cancelled run still does: the batches of the epoch that it is in, or what
/// is left of the epoch after its validation.
spec fn stopping(s: training::SessionState, t: training::SessionState, h: History) -> bool {
    let (c, d) = (s.schedule, t.schedule);
    &&& t.run.control.cancel
    &&& d.wf()
    &&& d.epoch == c.epoch && d.rows == c.rows && d.batch == c.batch
    &&& c.stage is Batches ==> {
        let start = c.stage->Batches_0 as int;
        &&& d.stage is Batches || d.stage is Done
        &&& h.losses.len() == 0
        &&& h.matrices.len() == 0
        &&& h.grids.len() == 0
        &&& h.checkpoints.len() == 0
        &&& h.ended.len() == 0
        &&& start <= match d.stage {
            Stage::Batches(at) => at as int,
            _ => c.rows as int,
        }
        &&& h.rows =~= batch_rows(
            c.epoch as int,
            start,
            match d.stage {
                Stage::Batches(at) => at as int,
                _ => c.rows as int,
            },
        )
    }
    &&& !(c.stage is Batches) ==> {
        &&& !(d.stage is Batches)
        &&& h.rows.len() == 0
        &&& h.ended.len() <= 1
        &&& h.ended.len() == 1 ==> d.stage is Done
    }
}

proof fn lemma_stopping(s: training::SessionState, answers: Seq<Answer>)
    requires
        s.schedule.wf(),
        s.run.control.cancel,
        fit(s, answers),
    ensures
        stopping(s, s.after_all(answers), history(s, answers)),
    decreases answers.len(),
{
    if answers.len() > 0 {
        let front = answers.drop_last();
        lemma_stopping(s, front);
        let t = s.after_all(front);
        let last = answers.last();
        match last {
            Answer::Trained(loss) => {
                assert(t.schedule.stage is Batches);
            },
            Answer::Told(cmd) => {
                if let Some(word) = cmd {
                    assert(harness::obeyed(t.run.control, cmd).cancel);
                }
            },
            _ => {},
        }
    }
}

/// A run that is cancelled while it trains finishes the batches of its epoch and
/// nothing else: it neither validates nor saves nor ends the epoch. One that is
/// cancelled later trains no more, ends its epoch at most, and begins no other. Both
/// finish as cancelled.
pub proof fn law_cancelled_run_stops(s: training::SessionState, answers: Seq<Answer>)
    requires
        s.schedule.wf(),
        s.run.control.cancel,
        fit(s, answers),
    ensures
        ({
            let h = history(s, answers);
            let t = s.after_all(answers);
            &&& t.status() == "cancelled"@
            &&& t.schedule.epoch == s.schedule.epoch
            &&& s.schedule.stage matches Stage::Batches(start) ==> {
                &&& h.losses.len() == 0
                &&& h.matrices.len() == 0
                &&& h.checkpoints.len() == 0
                &&& h.ended.len() == 0
                &&& t.asked().job() == Job::Finish || t.asked().job() is Train
                &&& t.asked().job() == Job::Finish ==> h.rows == batch_rows(
                    s.schedule.epoch as int,
                    start as int,
                    s.schedule.rows as int,
                )
            }
            &&& !(s.schedule.stage is Batches) ==> {
                &&& h.rows.len() == 0
                &&& h.ended.len() <= 1
                &&& h.ended.len() == 1 ==> t.asked().job() == Job::Finish
            }
        }),
{
    lemma_stopping(s, answers);
}

} // verus!
