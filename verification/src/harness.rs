//! The handle of a run: what each step of a run records, says and writes, and
//! the commands that control it.
use vstd::prelude::*;
use vstd::string::StringExecFns;

use crate::json;
use crate::protocol;
use crate::protocol::{Emitter, Stream, PROTOCOL_VERSION};
use crate::run_store;
use crate::run_store::{FileWrite, RunDir};
use crate::scalar::Real;
use crate::text;

verus! {

// ---------------------------------------------------------------------------
// Control commands.
// ---------------------------------------------------------------------------

/// What the commands on the standard input have asked for: `cancel` ends the
/// run, `pause` holds it at the end of an epoch.
#[derive(Clone, Copy, Debug, PartialEq, Eq, Structural)]
pub struct Control {
    pub cancel: bool,
    pub pause: bool,
}

impl Default for Control {
    fn default() -> (r: Self)
        ensures
            r == (Control { cancel: false, pause: false }),
    {
        Control { cancel: false, pause: false }
    }
}

/// The command that a line carries: the text of the member `cmd` of an object.
pub open spec fn command(line: Option<json::Json>) -> Option<Seq<char>> {
    match line {
        Some(json::Json::Object(members)) => if members.contains_key("cmd"@) {
            match members["cmd"@] {
                json::Json::Text(text) => Some(text),
                _ => None,
            }
        } else {
            None
        },
        _ => None,
    }
}

/// The flags after a command. Cancelling releases a paused run; what is not a
/// known command changes nothing.
pub open spec fn obeyed(c: Control, cmd: Option<Seq<char>>) -> Control {
    match cmd {
        Some(word) => if word == "cancel"@ {
            Control { cancel: true, pause: false }
        } else if word == "pause"@ {
            Control { pause: true, ..c }
        } else if word == "resume"@ {
            Control { pause: false, ..c }
        } else {
            c
        },
        None => c,
    }
}

impl Control {
    /// Follows a command, if there is one.
    pub fn obey(&mut self, cmd: Option<&str>)
        ensures
            *final(self) == obeyed(
                *old(self),
                match cmd {
                    Some(word) => Some(word@),
                    None => None,
                },
            ),
    {
        match cmd {
            Some(word) => {
                if text::same(word, "cancel") {
                    self.cancel = true;
                    self.pause = false;
                } else if text::same(word, "pause") {
                    self.pause = true;
                } else if text::same(word, "resume") {
                    self.pause = false;
                }
            },
            None => {},
        }
    }

    /// Follows the command that a line of JSON carries; a malformed line or an
    /// unknown command is ignored.
    pub fn handle(&mut self, line: &str)
        ensures
            *final(self) == obeyed(*old(self), command(json::json_parse(line@))),
    {
        match json::parse(line) {
            Some(value) => match json::member(&value, "cmd") {
                Some(cmd) => self.obey(cmd.as_str()),
                None => {},
            },
            None => {},
        }
    }
}

/// The flags after a series of commands.
pub open spec fn obeyed_all(c: Control, cmds: Seq<Option<Seq<char>>>) -> Control
    decreases cmds.len(),
{
    if cmds.len() == 0 {
        c
    } else {
        obeyed(obeyed_all(c, cmds.drop_last()), cmds.last())
    }
}

/// A run that was cancelled stays cancelled, whatever commands follow.
pub proof fn law_cancel_is_final(c: Control, cmds: Seq<Option<Seq<char>>>)
    requires
        c.cancel || cmds.contains(Some("cancel"@)),
    ensures
        obeyed_all(c, cmds).cancel,
    decreases cmds.len(),
{
    if cmds.len() > 0 && cmds.last() != Some("cancel"@) {
        if !c.cancel {
            let k = choose|k: int| 0 <= k < cmds.len() && cmds[k] == Some("cancel"@);
            assert(cmds.drop_last()[k] == Some("cancel"@));
        }
        law_cancel_is_final(c, cmds.drop_last());
    }
}

/// Whether a run is held is decided by the last of the three commands alone.
pub proof fn law_last_command_decides(c: Control, word: Seq<char>)
    requires
        word == "cancel"@ || word == "pause"@ || word == "resume"@,
    ensures
        obeyed(c, Some(word)).pause == (word == "pause"@),
        obeyed(c, Some(word)).cancel == (c.cancel || word == "cancel"@),
{
    reveal_strlit("cancel");
    reveal_strlit("pause");
    reveal_strlit("resume");
    assert("cancel"@.len() == 6);
    assert("pause"@.len() == 5);
    assert("resume"@.len() == 6);
    assert("cancel"@[0] == 'c');
    assert("resume"@[0] == 'r');
}

// ---------------------------------------------------------------------------
// Measured values and their statistics.
// ---------------------------------------------------------------------------

/// A measured value: the number, the same as JSON (null where JSON has no such
/// number), and the same as text with four decimals.
pub struct MetricValue {
    pub real: Real,
    pub json: serde_json::Value,
    pub text: String,
}

/// A measured value in mathematical terms.
pub struct Measure {
    pub real: Real,
    pub json: json::Json,
    pub text: Seq<char>,
}

impl View for MetricValue {
    type V = Measure;

    open spec fn view(&self) -> Measure {
        Measure { real: self.real, json: json::json_model(self.json), text: self.text@ }
    }
}

/// The lesser of two values.
pub open spec fn lesser(a: Measure, b: Measure) -> Measure {
    if a.real.is_nan() || b.real.is_less(a.real) {
        b
    } else {
        a
    }
}

/// The greater of two values.
pub open spec fn greater(a: Measure, b: Measure) -> Measure {
    if a.real.is_nan() || a.real.is_less(b.real) {
        b
    } else {
        a
    }
}

impl MetricValue {
    pub fn copy(&self) -> (r: MetricValue)
        ensures
            r@ == self@,
    {
        MetricValue { real: self.real, json: self.json.clone(), text: self.text.clone() }
    }
}

/// What is known of the values of one metric.
pub struct Stat {
    last: MetricValue,
    min: MetricValue,
    max: MetricValue,
    count: u64,
}

/// What is known of the values of one metric, in mathematical terms.
pub struct Series {
    pub last: Measure,
    pub min: Measure,
    pub max: Measure,
    pub count: nat,
}

impl View for Stat {
    type V = Series;

    closed spec fn view(&self) -> Series {
        Series { last: self.last@, min: self.min@, max: self.max@, count: self.count as nat }
    }
}

/// What is known after the first value.
pub open spec fn first_of(value: Measure) -> Series {
    Series { last: value, min: value, max: value, count: 1 }
}

/// What is known after one value more.
pub open spec fn next_of(series: Series, value: Measure) -> Series {
    Series {
        last: value,
        min: lesser(series.min, value),
        max: greater(series.max, value),
        count: series.count + 1,
    }
}

impl Stat {
    fn first(value: &MetricValue) -> (r: Stat)
        ensures
            r@ == first_of(value@),
    {
        Stat { last: value.copy(), min: value.copy(), max: value.copy(), count: 1 }
    }

    fn next(&self, value: &MetricValue) -> (r: Stat)
        requires
            self@.count < u64::MAX,
        ensures
            r@ == next_of(self@, value@),
    {
        let min = if self.min.real.nan() || value.real.less(self.min.real) {
            value.copy()
        } else {
            self.min.copy()
        };
        let max = if self.max.real.nan() || self.max.real.less(value.real) {
            value.copy()
        } else {
            self.max.copy()
        };
        Stat { last: value.copy(), min, max, count: self.count + 1 }
    }
}

/// What is known after a series of values.
pub open spec fn series_of(values: Seq<Measure>) -> Series
    recommends
        values.len() > 0,
    decreases values.len(),
{
    if values.len() <= 1 {
        first_of(values[0])
    } else {
        next_of(series_of(values.drop_last()), values.last())
    }
}

/// The statistics of a series of numbers: the last value, how many there were,
/// and two of the values that no other value is below or above.
pub proof fn law_series(values: Seq<Measure>)
    requires
        values.len() > 0,
        forall|i: int| 0 <= i < values.len() ==> !(#[trigger] values[i]).real.is_nan(),
    ensures
        series_of(values).last == values.last(),
        series_of(values).count == values.len(),
        values.contains(series_of(values).min),
        values.contains(series_of(values).max),
        forall|i: int|
            0 <= i < values.len() ==> !(#[trigger] values[i]).real.is_less(
                series_of(values).min.real,
            ) && !series_of(values).max.real.is_less(values[i].real),
    decreases values.len(),
{
    if values.len() > 1 {
        let front = values.drop_last();
        law_series(front);
        let a = series_of(front).min;
        let b = series_of(front).max;
        let i = choose|i: int| 0 <= i < front.len() && front[i] == a;
        let j = choose|j: int| 0 <= j < front.len() && front[j] == b;
        assert(values[i] == a);
        assert(values[j] == b);
        assert(values[values.len() - 1] == values.last());
        assert forall|k: int| 0 <= k < values.len() implies !(#[trigger] values[k]).real.is_less(
            series_of(values).min.real,
        ) && !series_of(values).max.real.is_less(values[k].real) by {
            if k < front.len() {
                assert(front[k] == values[k]);
            }
        }
    } else {
        assert(values[0] == values.last());
    }
}

/// A metric and what is known of its values.
pub struct Entry {
    name: String,
    stat: Stat,
}

impl View for Entry {
    type V = (Seq<char>, Series);

    closed spec fn view(&self) -> (Seq<char>, Series) {
        (self.name@, self.stat@)
    }
}

/// The metrics of a list of entries.
pub open spec fn entries(list: Seq<Entry>) -> Seq<(Seq<char>, Series)> {
    Seq::new(list.len(), |i: int| list[i]@)
}

/// The metrics after one value more: the metric of that name is brought up to
/// date, or takes its place in the order of names.
pub open spec fn with_value(
    list: Seq<(Seq<char>, Series)>,
    name: Seq<char>,
    value: Measure,
) -> Seq<(Seq<char>, Series)>
    decreases list.len(),
{
    if list.len() == 0 {
        seq![(name, first_of(value))]
    } else if list[0].0 == name {
        seq![(name, next_of(list[0].1, value))] + list.skip(1)
    } else if text::text_less(name, list[0].0) {
        seq![(name, first_of(value))] + list
    } else {
        seq![list[0]] + with_value(list.skip(1), name, value)
    }
}

/// Whether `n` values more can be counted.
pub open spec fn has_room(list: Seq<(Seq<char>, Series)>, n: nat) -> bool {
    forall|i: int| 0 <= i < list.len() ==> (#[trigger] list[i]).1.count + n <= u64::MAX
}

pub proof fn lemma_with_value_room(
    list: Seq<(Seq<char>, Series)>,
    name: Seq<char>,
    value: Measure,
    n: nat,
)
    requires
        has_room(list, n),
        1 <= n <= u64::MAX,
    ensures
        has_room(with_value(list, name, value), (n - 1) as nat),
    decreases list.len(),
{
    let t = with_value(list, name, value);
    if list.len() > 0 {
        assert(list[0].1.count + n <= u64::MAX);
        assert forall|i: int| 0 <= i < list.skip(1).len() implies (#[trigger] list.skip(
            1,
        )[i]).1.count + n <= u64::MAX by {
            assert(list.skip(1)[i] == list[i + 1]);
        }
        lemma_with_value_room(list.skip(1), name, value, n);
        let rest = with_value(list.skip(1), name, value);
        assert forall|i: int| 0 <= i < t.len() implies (#[trigger] t[i]).1.count + (n - 1)
            <= u64::MAX by {
            if list[0].0 == name {
                if i > 0 {
                    assert(t[i] == list.skip(1)[i - 1]);
                }
            } else if text::text_less(name, list[0].0) {
                if i > 0 {
                    assert(t[i] == list[i - 1]);
                }
            } else if i > 0 {
                assert(t[i] == rest[i - 1]);
            }
        }
    }
}

/// Brings the statistics up to date with one value more.
fn track_stat(list: &mut Vec<Entry>, name: &str, value: &MetricValue)
    requires
        has_room(entries(old(list)@), 1),
    ensures
        entries(final(list)@) == with_value(entries(old(list)@), name@, value@),
{
    let ghost all = entries(list@);
    let mut i: usize = 0;
    assert(all.skip(0) =~= all);
    assert(all.take(0) + with_value(all.skip(0), name@, value@) =~= with_value(all, name@, value@));
    while i < list.len() && text::less(list[i].name.as_str(), name)
        invariant
            i <= list@.len(),
            list@ == old(list)@,
            all == entries(list@),
            with_value(all, name@, value@) == all.take(i as int) + with_value(
                all.skip(i as int),
                name@,
                value@,
            ),
        decreases list@.len() - i,
    {
        proof {
            let rest = all.skip(i as int);
            assert(rest[0] == list@[i as int]@);
            text::lemma_text_less_irreflexive(name@);
            if text::text_less(name@, rest[0].0) {
                text::lemma_text_less_transitive(name@, rest[0].0, name@);
            }
            assert(rest.skip(1) =~= all.skip(i + 1));
            assert(all.take(i as int) + (seq![rest[0]] + with_value(all.skip(i + 1), name@, value@))
                =~= all.take(i + 1) + with_value(all.skip(i + 1), name@, value@));
        }
        i += 1;
    }
    let ghost rest = all.skip(i as int);
    if i < list.len() {
        assert(rest[0] == list@[i as int]@);
        if text::same(list[i].name.as_str(), name) {
            assert(all[i as int].1.count + 1 <= u64::MAX);
            let stat = list[i].stat.next(value);
            list[i] = Entry { name: name.to_string(), stat };
            proof {
                assert(entries(list@) =~= all.take(i as int) + (seq![
                    (name@, next_of(rest[0].1, value@)),
                ] + rest.skip(1)));
            }
            return;
        }
        proof {
            text::lemma_text_less_total(name@, rest[0].0);
        }
    }
    list.insert(i, Entry { name: name.to_string(), stat: Stat::first(value) });
    proof {
        if i < all.len() {
            assert(entries(list@) =~= all.take(i as int) + (seq![(name@, first_of(value@))] + rest));
        } else {
            assert(entries(list@) =~= all.take(i as int) + seq![(name@, first_of(value@))]);
        }
    }
}

/// Whether metrics are in the order of their names, each named once.
pub open spec fn in_order(list: Seq<(Seq<char>, Series)>) -> bool {
    forall|i: int, j: int|
        0 <= i < j < list.len() ==> text::text_less((#[trigger] list[i]).0, (#[trigger] list[j]).0)
}

/// What is known of the metric of a name, if it is among the metrics.
pub open spec fn lookup(list: Seq<(Seq<char>, Series)>, name: Seq<char>) -> Option<Series>
    decreases list.len(),
{
    if list.len() == 0 {
        None
    } else if list[0].0 == name {
        Some(list[0].1)
    } else {
        lookup(list.skip(1), name)
    }
}

proof fn lemma_lookup_absent(list: Seq<(Seq<char>, Series)>, name: Seq<char>)
    requires
        in_order(list),
        list.len() > 0,
        text::text_less(name, list[0].0),
    ensures
        lookup(list, name) is None,
    decreases list.len(),
{
    text::lemma_text_less_irreflexive(name);
    reveal_with_fuel(lookup, 2);
    if list.len() > 1 {
        let rest = list.skip(1);
        assert(rest[0] == list[1]);
        text::lemma_text_less_transitive(name, list[0].0, list[1].0);
        lemma_in_order_skip(list);
        lemma_lookup_absent(rest, name);
    }
}

proof fn lemma_in_order_skip(list: Seq<(Seq<char>, Series)>)
    requires
        in_order(list),
        list.len() > 0,
    ensures
        in_order(list.skip(1)),
{
    let rest = list.skip(1);
    assert forall|i: int, j: int| 0 <= i < j < rest.len() implies text::text_less(
        (#[trigger] rest[i]).0,
        (#[trigger] rest[j]).0,
    ) by {
        assert(rest[i] == list[i + 1]);
        assert(rest[j] == list[j + 1]);
    }
}

/// One value more keeps the metrics in the order of their names, brings the one
/// metric up to date, and leaves every other metric as it was.
pub proof fn law_one_value_more(
    list: Seq<(Seq<char>, Series)>,
    name: Seq<char>,
    value: Measure,
    other: Seq<char>,
)
    requires
        in_order(list),
    ensures
        in_order(with_value(list, name, value)),
        lookup(with_value(list, name, value), name) == Some(
            match lookup(list, name) {
                Some(series) => next_of(series, value),
                None => first_of(value),
            },
        ),
        other != name ==> lookup(with_value(list, name, value), other) == lookup(list, other),
    decreases list.len(),
{
    let t = with_value(list, name, value);
    if list.len() == 0 {
        assert(t.skip(1) =~= list);
    } else {
        let rest = list.skip(1);
        lemma_in_order_skip(list);
        if list[0].0 == name {
            assert(t.skip(1) =~= rest);
            assert forall|i: int, j: int| 0 <= i < j < t.len() implies text::text_less(
                (#[trigger] t[i]).0,
                (#[trigger] t[j]).0,
            ) by {
                assert(t[i].0 == list[i].0);
                assert(t[j].0 == list[j].0);
            }
        } else if text::text_less(name, list[0].0) {
            assert(t.skip(1) =~= list);
            lemma_lookup_absent(list, name);
            assert forall|i: int, j: int| 0 <= i < j < t.len() implies text::text_less(
                (#[trigger] t[i]).0,
                (#[trigger] t[j]).0,
            ) by {
                assert(t[j] == list[j - 1]);
                if i > 0 {
                    assert(t[i] == list[i - 1]);
                } else if j > 1 {
                    text::lemma_text_less_transitive(name, list[0].0, list[j - 1].0);
                }
            }
        } else {
            text::lemma_text_less_total(name, list[0].0);
            law_one_value_more(rest, name, value, other);
            let u = with_value(rest, name, value);
            assert(t.skip(1) =~= u);
            lemma_heads(rest, name, value, list[0].0);
            assert forall|i: int, j: int| 0 <= i < j < t.len() implies text::text_less(
                (#[trigger] t[i]).0,
                (#[trigger] t[j]).0,
            ) by {
                assert(t[j] == u[j - 1]);
                if i > 0 {
                    assert(t[i] == u[i - 1]);
                }
            }
        }
    }
}

proof fn lemma_heads(
    list: Seq<(Seq<char>, Series)>,
    name: Seq<char>,
    value: Measure,
    below: Seq<char>,
)
    requires
        text::text_less(below, name),
        forall|i: int| 0 <= i < list.len() ==> text::text_less(below, (#[trigger] list[i]).0),
    ensures
        forall|i: int|
            0 <= i < with_value(list, name, value).len() ==> text::text_less(
                below,
                (#[trigger] with_value(list, name, value)[i]).0,
            ),
    decreases list.len(),
{
    let t = with_value(list, name, value);
    if list.len() > 0 {
        let rest = list.skip(1);
        assert forall|i: int| 0 <= i < rest.len() implies text::text_less(
            below,
            (#[trigger] rest[i]).0,
        ) by {
            assert(rest[i] == list[i + 1]);
        }
        lemma_heads(rest, name, value, below);
        let u = with_value(rest, name, value);
        assert forall|i: int| 0 <= i < t.len() implies text::text_less(
            below,
            (#[trigger] t[i]).0,
        ) by {
            if list[0].0 == name {
                if i > 0 {
                    assert(t[i] == rest[i - 1]);
                }
            } else if text::text_less(name, list[0].0) {
                if i > 0 {
                    assert(t[i] == list[i - 1]);
                }
            } else if i > 0 {
                assert(t[i] == u[i - 1]);
            }
        }
    }
}

// ---------------------------------------------------------------------------
// What a run does to the world.
// ---------------------------------------------------------------------------

/// One thing to do, in the order given.
pub enum Effect {
    /// Append a line to a file.
    Append { path: Vec<String>, line: String },
    /// Write a file whole.
    Write(FileWrite),
    /// Print a line.
    Print { stream: Stream, line: String },
    /// Begin to read control commands from the standard input.
    WatchControl,
}

/// One thing to do, in mathematical terms.
pub enum Act {
    Append(Seq<Seq<char>>, Seq<char>),
    Write { path: Seq<Seq<char>>, tmp: Seq<Seq<char>>, text: Seq<char> },
    Print(Stream, Seq<char>),
    WatchControl,
}

impl Effect {
    pub open spec fn act(&self) -> Act {
        match self {
            Effect::Append { path, line } => Act::Append(text::texts(path@), line@),
            Effect::Write(file) => Act::Write {
                path: text::texts(file.path@),
                tmp: text::texts(file.tmp@),
                text: file.text@,
            },
            Effect::Print { stream, line } => Act::Print(*stream, line@),
            Effect::WatchControl => Act::WatchControl,
        }
    }
}

/// What a list of effects does.
pub open spec fn acts(list: Seq<Effect>) -> Seq<Act> {
    Seq::new(list.len(), |i: int| list[i].act())
}

proof fn lemma_acts_push(list: Seq<Effect>, e: Effect)
    ensures
        acts(list.push(e)) == acts(list).push(e.act()),
{
    assert(acts(list.push(e)) =~= acts(list).push(e.act()));
}

/// The state of a run.
#[verifier::ext_equal]
pub struct RunState {
    pub name: Seq<char>,
    /// The directory of the run, as names below the project directory.
    pub dir: Seq<Seq<char>>,
    pub id: Seq<char>,
    pub total_epochs: u32,
    pub device: Seq<char>,
    /// How many times metrics have been logged.
    pub step: nat,
    pub epoch: u32,
    pub started_at: Seq<char>,
    pub stats: Seq<(Seq<char>, Series)>,
    /// The kind and path of each artifact.
    pub artifacts: Seq<(Seq<char>, Seq<char>)>,
    /// Whether protocol mode is on.
    pub protocol: bool,
    pub control: Control,
}

/// A list of pairs of strings as pairs of texts.
pub open spec fn text_pairs(list: Seq<(String, String)>) -> Seq<(Seq<char>, Seq<char>)> {
    Seq::new(list.len(), |i: int| (list[i].0@, list[i].1@))
}

/// The metrics that are logged together.
pub open spec fn measures(list: Seq<(&str, MetricValue)>) -> Seq<(Seq<char>, Measure)> {
    Seq::new(list.len(), |i: int| (list[i].0@, list[i].1@))
}

/// The metrics after a list of values more.
pub open spec fn with_values(
    list: Seq<(Seq<char>, Series)>,
    values: Seq<(Seq<char>, Measure)>,
) -> Seq<(Seq<char>, Series)>
    decreases values.len(),
{
    if values.len() == 0 {
        list
    } else {
        with_value(with_values(list, values.drop_last()), values.last().0, values.last().1)
    }
}

/// The values of one metric among logged values.
pub open spec fn values_of(values: Seq<(Seq<char>, Measure)>, name: Seq<char>) -> Seq<Measure>
    decreases values.len(),
{
    if values.len() == 0 {
        Seq::empty()
    } else if values.last().0 == name {
        values_of(values.drop_last(), name).push(values.last().1)
    } else {
        values_of(values.drop_last(), name)
    }
}

/// Whatever is logged, each metric is known by exactly its own values, and the
/// metrics stay in the order of their names.
pub proof fn law_metrics_follow_their_values(values: Seq<(Seq<char>, Measure)>, name: Seq<char>)
    ensures
        in_order(with_values(Seq::empty(), values)),
        lookup(with_values(Seq::empty(), values), name) == if values_of(values, name).len() == 0 {
            None
        } else {
            Some(series_of(values_of(values, name)))
        },
    decreases values.len(),
{
    if values.len() > 0 {
        let front = values.drop_last();
        law_metrics_follow_their_values(front, name);
        let list = with_values(Seq::empty(), front);
        law_one_value_more(list, values.last().0, values.last().1, name);
        if values.last().0 == name {
            let before = values_of(front, name);
            assert(before.push(values.last().1).drop_last() =~= before);
        }
    }
}

/// The statistics of a metric as JSON.
pub open spec fn series_json(s: Series) -> json::Json {
    json::Json::Object(
        map![
            "last"@ => s.last.json,
            "min"@ => s.min.json,
            "max"@ => s.max.json,
            "count"@ => json::Json::Unsigned(s.count as u64),
        ],
    )
}

/// The statistics of all metrics as the members of a JSON object.
pub open spec fn stats_json(list: Seq<(Seq<char>, Series)>) -> Map<Seq<char>, json::Json>
    decreases list.len(),
{
    if list.len() == 0 {
        json::no_members()
    } else {
        stats_json(list.drop_last()).insert(list.last().0, series_json(list.last().1))
    }
}

/// The artifacts as a JSON array.
pub open spec fn artifacts_json(list: Seq<(Seq<char>, Seq<char>)>) -> json::Json {
    json::Json::Array(
        Seq::new(
            list.len(),
            |i: int|
                json::Json::Object(
                    map![
                        "kind"@ => json::Json::Text(list[i].0),
                        "path"@ => json::Json::Text(list[i].1),
                    ],
                ),
        ),
    )
}

/// The latest value of each metric, for people.
pub open spec fn latest(list: Seq<(Seq<char>, Series)>) -> Seq<Seq<char>> {
    Seq::new(list.len(), |i: int| list[i].0 + "="@ + list[i].1.last.text)
}

/// A value of a metric as it is recorded.
pub struct MetricRecord {
    pub step: nat,
    pub epoch: u32,
    pub name: Seq<char>,
    pub value: Measure,
}

/// Logging metrics appends exactly the events of their records.
pub proof fn law_log_keeps_records(run: RunState, values: Seq<(Seq<char>, Measure)>, epoch: u32)
    ensures
        run.log_acts(values, epoch) == run.record_acts(run.log_records(values, epoch)),
    decreases values.len(),
{
    if values.len() > 0 {
        law_log_keeps_records(run, values.drop_last(), epoch);
        assert(run.log_records(values, epoch).drop_last() =~= run.log_records(
            values.drop_last(),
            epoch,
        ));
    }
}

impl RunState {
    /// A run that has just begun.
    pub open spec fn fresh(
        name: Seq<char>,
        dir: RunDir,
        total_epochs: u32,
        device: Seq<char>,
        started_at: Seq<char>,
        protocol: bool,
    ) -> RunState {
        RunState {
            name,
            dir: dir.names(),
            id: dir.id(),
            total_epochs,
            device,
            step: 0,
            epoch: 0,
            started_at,
            stats: Seq::empty(),
            artifacts: Seq::empty(),
            protocol,
            control: Control { cancel: false, pause: false },
        }
    }

    /// An event is appended to the metrics file and, in protocol mode, printed.
    pub open spec fn recorded(self, event: json::Json) -> Seq<Act> {
        match protocol::event_line(event) {
            Some(line) => if self.protocol {
                seq![
                    Act::Append(self.dir.push("metrics.jsonl"@), line),
                    Act::Print(Stream::Stdout, line),
                ]
            } else {
                seq![Act::Append(self.dir.push("metrics.jsonl"@), line)]
            },
            None => Seq::empty(),
        }
    }

    /// A line for people keeps clear of the standard output in protocol mode.
    pub open spec fn said(self, msg: Seq<char>) -> Seq<Act> {
        seq![
            Act::Print(
                if self.protocol {
                    Stream::Stderr
                } else {
                    Stream::Stdout
                },
                msg + "\n"@,
            ),
        ]
    }

    pub open spec fn started_event(self, config: json::Json, abs_dir: Seq<char>) -> json::Json {
        json::Json::Object(
            map![
                "ev"@ => json::Json::Text("run.started"@),
                "run"@ => json::Json::Text(self.id),
                "name"@ => json::Json::Text(self.name),
                "dir"@ => json::Json::Text(abs_dir),
                "config"@ => config,
                "totalEpochs"@ => json::Json::Unsigned(self.total_epochs as u64),
                "device"@ => json::Json::Text(self.device),
                "protocol"@ => json::Json::Unsigned(PROTOCOL_VERSION as u64),
                "startedAt"@ => json::Json::Text(self.started_at),
            ],
        )
    }

    /// What the beginning of a run does.
    pub open spec fn start_acts(self, config: json::Json, abs_dir: Seq<char>) -> Seq<Act> {
        seq![
            Act::Write {
                path: self.dir.push("config.json"@),
                tmp: self.dir.push("config.json.tmp"@),
                text: run_store::file_text(config),
            },
        ] + self.recorded(self.started_event(config, abs_dir)) + self.said(
            "run "@ + self.id + " started"@,
        ) + if self.protocol {
            seq![Act::WatchControl]
        } else {
            Seq::empty()
        }
    }

    /// The run after metrics were logged.
    pub open spec fn logged(self, values: Seq<(Seq<char>, Measure)>) -> RunState {
        RunState { step: self.step + 1, stats: with_values(self.stats, values), ..self }
    }

    pub open spec fn metric_event(
        self,
        step: nat,
        epoch: u32,
        name: Seq<char>,
        value: Measure,
    ) -> json::Json {
        json::Json::Object(
            map![
                "ev"@ => json::Json::Text("metric"@),
                "run"@ => json::Json::Text(self.id),
                "step"@ => json::Json::Unsigned(step as u64),
                "epoch"@ => json::Json::Unsigned(epoch as u64),
                "name"@ => json::Json::Text(name),
                "value"@ => value.json,
            ],
        )
    }

    /// What logging metrics does: one event for each, all at the next step.
    pub open spec fn log_acts(self, values: Seq<(Seq<char>, Measure)>, epoch: u32) -> Seq<Act>
        decreases values.len(),
    {
        if values.len() == 0 {
            Seq::empty()
        } else {
            self.log_acts(values.drop_last(), epoch) + self.recorded(
                self.metric_event(self.step + 1, epoch, values.last().0, values.last().1),
            )
        }
    }

    /// What logging metrics records.
    pub open spec fn log_records(self, values: Seq<(Seq<char>, Measure)>, epoch: u32) -> Seq<
        MetricRecord,
    > {
        Seq::new(
            values.len(),
            |i: int|
                MetricRecord {
                    step: self.step + 1,
                    epoch,
                    name: values[i].0,
                    value: values[i].1,
                },
        )
    }

    /// What records of metrics do: one event for each.
    pub open spec fn record_acts(self, records: Seq<MetricRecord>) -> Seq<Act>
        decreases records.len(),
    {
        if records.len() == 0 {
            Seq::empty()
        } else {
            let last = records.last();
            self.record_acts(records.drop_last()) + self.recorded(
                self.metric_event(last.step, last.epoch, last.name, last.value),
            )
        }
    }

    pub open spec fn epoch_event(self, i: u32) -> json::Json {
        json::Json::Object(
            map![
                "ev"@ => json::Json::Text("epoch"@),
                "run"@ => json::Json::Text(self.id),
                "epoch"@ => json::Json::Unsigned(i as u64),
                "of"@ => json::Json::Unsigned(self.total_epochs as u64),
            ],
        )
    }

    /// What the end of an epoch does.
    pub open spec fn epoch_acts(self, i: u32) -> Seq<Act> {
        self.recorded(self.epoch_event(i)) + self.said(
            "epoch "@ + text::decimal(i as nat) + "/"@ + text::decimal(self.total_epochs as nat)
                + "  "@ + text::join(latest(self.stats), "  "@),
        )
    }

    /// Where a run stands at the end of an epoch, given whether it has begun to
    /// wait there.
    pub open spec fn gate(self, waiting: bool) -> Gate {
        if !waiting {
            if self.control.pause {
                Gate::Closing
            } else {
                Gate::Open
            }
        } else if self.control.pause && !self.control.cancel {
            Gate::Closed
        } else {
            Gate::Open
        }
    }

    /// What is said of a pause.
    pub open spec fn gate_acts(self, waiting: bool) -> Seq<Act> {
        if !waiting {
            if self.control.pause {
                self.said("paused"@)
            } else {
                Seq::empty()
            }
        } else if self.control.pause && !self.control.cancel {
            Seq::empty()
        } else {
            self.said("resumed"@)
        }
    }

    /// The run after it came to the end of an epoch. It passes only where
    /// nothing holds it.
    pub open spec fn passed(self, i: u32, waiting: bool) -> RunState {
        if self.gate(waiting) == Gate::Open {
            RunState { epoch: i, ..self }
        } else {
            self
        }
    }

    /// What coming to the end of an epoch does.
    pub open spec fn passing_acts(self, i: u32, waiting: bool) -> Seq<Act> {
        self.gate_acts(waiting) + if self.gate(waiting) == Gate::Open {
            self.epoch_acts(i)
        } else {
            Seq::empty()
        }
    }

    pub open spec fn artifact_event(self, kind: Seq<char>, path: Seq<char>) -> json::Json {
        json::Json::Object(
            map![
                "ev"@ => json::Json::Text("artifact"@),
                "run"@ => json::Json::Text(self.id),
                "kind"@ => json::Json::Text(kind),
                "path"@ => json::Json::Text(path),
            ],
        )
    }

    pub open spec fn info_event(self, msg: Seq<char>) -> json::Json {
        json::Json::Object(
            map![
                "ev"@ => json::Json::Text("log"@),
                "run"@ => json::Json::Text(self.id),
                "level"@ => json::Json::Text("info"@),
                "msg"@ => json::Json::Text(msg),
            ],
        )
    }

    /// What a message does.
    pub open spec fn info_acts(self, msg: Seq<char>) -> Seq<Act> {
        self.recorded(self.info_event(msg)) + self.said(msg)
    }

    pub open spec fn summary(self, status: Seq<char>, finished_at: Seq<char>) -> json::Json {
        json::Json::Object(
            map![
                "status"@ => json::Json::Text(status),
                "name"@ => json::Json::Text(self.name),
                "startedAt"@ => json::Json::Text(self.started_at),
                "finishedAt"@ => json::Json::Text(finished_at),
                "totalEpochs"@ => json::Json::Unsigned(self.total_epochs as u64),
                "lastEpoch"@ => json::Json::Unsigned(self.epoch as u64),
                "device"@ => json::Json::Text(self.device),
                "metrics"@ => json::Json::Object(stats_json(self.stats)),
                "artifacts"@ => artifacts_json(self.artifacts),
            ],
        )
    }

    pub open spec fn finished_event(self, status: Seq<char>, summary: json::Json) -> json::Json {
        json::Json::Object(
            map![
                "ev"@ => json::Json::Text("run.finished"@),
                "run"@ => json::Json::Text(self.id),
                "status"@ => json::Json::Text(status),
                "summary"@ => summary,
            ],
        )
    }

    /// What the end of a run does.
    pub open spec fn finish_acts(self, status: Seq<char>, finished_at: Seq<char>) -> Seq<Act> {
        let summary = self.summary(status, finished_at);
        seq![
            Act::Write {
                path: self.dir.push("summary.json"@),
                tmp: self.dir.push("summary.json.tmp"@),
                text: run_store::file_text(summary),
            },
        ] + self.recorded(self.finished_event(status, summary)) + self.said(
            "run "@ + self.id + " finished: "@ + status,
        )
    }
}

/// A run in progress.
pub struct Run<'a> {
    name: String,
    emitter: &'a Emitter,
    dir: RunDir,
    total_epochs: u32,
    device: String,
    step: u64,
    epoch: u32,
    started_at: String,
    stats: Vec<Entry>,
    artifacts: Vec<(String, String)>,
    control: Control,
}

impl<'a> View for Run<'a> {
    type V = RunState;

    closed spec fn view(&self) -> RunState {
        RunState {
            name: self.name@,
            dir: self.dir.names(),
            id: self.dir.id(),
            total_epochs: self.total_epochs,
            device: self.device@,
            step: self.step as nat,
            epoch: self.epoch,
            started_at: self.started_at@,
            stats: entries(self.stats@),
            artifacts: text_pairs(self.artifacts@),
            protocol: self.emitter.is_enabled(),
            control: self.control,
        }
    }
}

/// Where a paused run stands at the end of an epoch.
#[derive(Clone, Copy, Debug, PartialEq, Eq, Structural)]
pub enum Gate {
    /// Go on.
    Open,
    /// The pause has begun: look again, now waiting.
    Closing,
    /// Look again after a while.
    Closed,
}

/// How long a paused run waits before it looks again, in milliseconds.
pub const POLL_MILLIS: u64 = 100;

impl<'a> Run<'a> {
    fn record(&self, event: serde_json::Value, out: &mut Vec<Effect>)
        ensures
            acts(final(out)@) == acts(old(out)@) + self@.recorded(json::json_model(event)),
    {
        let ghost before = out@;
        match self.dir.append_event(&event) {
            Some(line) => {
                out.push(Effect::Append { path: self.dir.metrics_file(), line });
                proof {
                    lemma_acts_push(before, out@.last());
                }
            },
            None => {},
        }
        let ghost middle = out@;
        let (_, printed) = self.emitter.emit(event);
        match printed {
            Some(line) => {
                out.push(Effect::Print { stream: Stream::Stdout, line });
                proof {
                    lemma_acts_push(middle, out@.last());
                }
            },
            None => {},
        }
        assert(acts(out@) =~= acts(before) + self@.recorded(json::json_model(event)));
    }

    fn say(&self, msg: &str, out: &mut Vec<Effect>)
        ensures
            acts(final(out)@) == acts(old(out)@) + self@.said(msg@),
    {
        let ghost before = out@;
        let (stream, line) = self.emitter.console(msg);
        out.push(Effect::Print { stream, line });
        proof {
            lemma_acts_push(before, out@.last());
            assert(acts(out@) =~= acts(before) + self@.said(msg@));
        }
    }

    /// Begins a run at a given time. `abs_dir` is the absolute path of its
    /// directory.
    pub fn start_at(
        emitter: &'a Emitter,
        dir: RunDir,
        name: &str,
        config: serde_json::Value,
        total_epochs: u32,
        device: &str,
        abs_dir: &str,
        started_at: String,
    ) -> (r: (Run<'a>, Vec<Effect>))
        ensures
            r.0@ == RunState::fresh(
                name@,
                dir,
                total_epochs,
                device@,
                started_at@,
                emitter.is_enabled(),
            ),
            acts(r.1@) == r.0@.start_acts(json::json_model(config), abs_dir@),
    {
        let run = Run {
            name: name.to_string(),
            emitter,
            dir,
            total_epochs,
            device: device.to_string(),
            step: 0,
            epoch: 0,
            started_at,
            stats: Vec::new(),
            artifacts: Vec::new(),
            control: Control::default(),
        };
        let ghost fresh = RunState::fresh(
            name@,
            dir,
            total_epochs,
            device@,
            started_at@,
            emitter.is_enabled(),
        );
        assert(run@ =~= fresh);
        let mut out: Vec<Effect> = Vec::new();
        let file = run.dir.write_config(&config);
        out.push(Effect::Write(file));
        let ghost first = acts(out@);
        let id = run.dir.run_id();
        let ghost config_model = json::json_model(config);
        let mut event = json::members();
        json::put(&mut event, "ev", json::text("run.started"));
        json::put(&mut event, "run", json::text(id.as_str()));
        json::put(&mut event, "name", json::text(name));
        json::put(&mut event, "dir", json::text(abs_dir));
        json::put(&mut event, "config", config);
        json::put(&mut event, "totalEpochs", json::unsigned(total_epochs as u64));
        json::put(&mut event, "device", json::text(device));
        json::put(&mut event, "protocol", json::unsigned(PROTOCOL_VERSION as u64));
        json::put(&mut event, "startedAt", json::text(run.started_at.as_str()));
        run.record(json::object(event), &mut out);
        let mut msg = "run ".to_string();
        msg.append(id.as_str());
        msg.append(" started");
        run.say(msg.as_str(), &mut out);
        let ghost before = out@;
        if emitter.enabled() {
            out.push(Effect::WatchControl);
            proof {
                lemma_acts_push(before, out@.last());
            }
        }
        proof {
            assert(first =~= seq![
                Act::Write {
                    path: fresh.dir.push("config.json"@),
                    tmp: fresh.dir.push("config.json.tmp"@),
                    text: run_store::file_text(config_model),
                },
            ]);
            assert(acts(out@) =~= fresh.start_acts(config_model, abs_dir@));
        }
        (run, out)
    }

    /// Begins a run now.
    pub fn start(
        emitter: &'a Emitter,
        dir: RunDir,
        name: &str,
        config: serde_json::Value,
        total_epochs: u32,
        device: &str,
        abs_dir: &str,
    ) -> (r: (Run<'a>, Vec<Effect>))
        ensures
            exists|secs: i64|
                r.0@ == RunState::fresh(
                    name@,
                    dir,
                    total_epochs,
                    device@,
                    #[trigger] run_store::iso_text(secs as int),
                    emitter.is_enabled(),
                ),
            acts(r.1@) == r.0@.start_acts(json::json_model(config), abs_dir@),
    {
        let started_at = run_store::now_iso();
        Run::start_at(emitter, dir, name, config, total_epochs, device, abs_dir, started_at)
    }

    /// Whether the run was told to end. A training loop then stops and leaves
    /// the last checkpoint as it is.
    pub fn cancelled(&self) -> (r: bool)
        ensures
            r == self@.control.cancel,
    {
        self.control.cancel
    }

    /// Takes a line from the standard input.
    pub fn control_line(&mut self, line: &str)
        ensures
            final(self)@ == (RunState {
                control: obeyed(
                    old(self)@.control,
                    command(json::json_parse(text::trim(line@))),
                ),
                ..old(self)@
            }),
    {
        let trimmed = text::trimmed(line);
        let mut control = self.control;
        control.handle(trimmed.as_str());
        self.control = control;
    }

    /// Decides at the end of an epoch whether the run goes on. A pause is
    /// announced when it begins and when it ends; cancelling ends it too.
    pub fn wait_if_paused(&self, waiting: bool) -> (r: (Gate, Vec<Effect>))
        ensures
            r.0 == self@.gate(waiting),
            acts(r.1@) == self@.gate_acts(waiting),
    {
        let mut out: Vec<Effect> = Vec::new();
        assert(acts(out@) =~= Seq::<Act>::empty());
        if !waiting {
            if self.control.pause {
                self.say("paused", &mut out);
                assert(acts(out@) =~= self@.said("paused"@));
                (Gate::Closing, out)
            } else {
                (Gate::Open, out)
            }
        } else if self.control.pause && !self.cancelled() {
            (Gate::Closed, out)
        } else {
            self.say("resumed", &mut out);
            assert(acts(out@) =~= self@.said("resumed"@));
            (Gate::Open, out)
        }
    }

    pub fn checkpoints_dir(&self) -> (r: Vec<String>)
        ensures
            text::texts(r@) == self@.dir.push("checkpoints"@),
    {
        self.dir.checkpoints_dir()
    }

    pub fn artifacts_dir(&self) -> (r: Vec<String>)
        ensures
            text::texts(r@) == self@.dir.push("artifacts"@),
    {
        self.dir.artifacts_dir()
    }

    /// How many times metrics have been logged.
    pub fn steps(&self) -> (r: u64)
        ensures
            r == self@.step,
    {
        self.step
    }

    /// Whether `n` metrics more can be logged.
    pub fn room_for(&self, n: usize) -> (r: bool)
        ensures
            r == (self@.step < u64::MAX && has_room(self@.stats, n as nat)),
    {
        if self.step == u64::MAX {
            return false;
        }
        let most: u64 = u64::MAX - n as u64;
        let mut i: usize = 0;
        while i < self.stats.len()
            invariant
                i <= self.stats@.len(),
                most == u64::MAX - n,
                forall|j: int|
                    0 <= j < i ==> (#[trigger] entries(self.stats@)[j]).1.count <= most,
            decreases self.stats@.len() - i,
        {
            if self.stats[i].stat.count > most {
                assert(entries(self.stats@)[i as int].1.count + n > u64::MAX);
                return false;
            }
            i += 1;
        }
        true
    }

    /// Logs metrics at the next step.
    pub fn log(&mut self, metrics: &[(&str, MetricValue)], epoch: u32) -> (r: Vec<Effect>)
        requires
            old(self)@.step < u64::MAX,
            has_room(old(self)@.stats, metrics@.len()),
        ensures
            final(self)@ == old(self)@.logged(measures(metrics@)),
            acts(r@) == old(self)@.log_acts(measures(metrics@), epoch),
    {
        let ghost all = measures(metrics@);
        let ghost start = self@;
        self.step = self.step + 1;
        let mut out: Vec<Effect> = Vec::new();
        let mut i: usize = 0;
        proof {
            assert(all.take(0) =~= Seq::<(Seq<char>, Measure)>::empty());
            assert(acts(out@) =~= start.log_acts(all.take(0), epoch));
        }
        while i < metrics.len()
            invariant
                i <= metrics@.len(),
                all == measures(metrics@),
                start.step < u64::MAX,
                self@ == start.logged(all.take(i as int)),
                has_room(self@.stats, (metrics@.len() - i) as nat),
                acts(out@) == start.log_acts(all.take(i as int), epoch),
            decreases metrics@.len() - i,
        {
            let (name, value) = &metrics[i];
            proof {
                let more = all.take(i + 1);
                assert(more.drop_last() =~= all.take(i as int));
                assert(more.last() == (name@, value@));
                lemma_with_value_room(
                    self@.stats,
                    name@,
                    value@,
                    (metrics@.len() - i) as nat,
                );
            }
            track_stat(&mut self.stats, name, value);
            assert(self@ =~= start.logged(all.take(i + 1)));
            let id = self.dir.run_id();
            let mut event = json::members();
            json::put(&mut event, "ev", json::text("metric"));
            json::put(&mut event, "run", json::text(id.as_str()));
            json::put(&mut event, "step", json::unsigned(self.step));
            json::put(&mut event, "epoch", json::unsigned(epoch as u64));
            json::put(&mut event, "name", json::text(name));
            json::put(&mut event, "value", value.json.clone());
            self.record(json::object(event), &mut out);
            i += 1;
        }
        assert(all.take(i as int) =~= all);
        out
    }

    /// Ends an epoch, unless the run is paused: then it has to come back, waiting.
    pub fn epoch(&mut self, i: u32, waiting: bool) -> (r: (Gate, Vec<Effect>))
        ensures
            r.0 == old(self)@.gate(waiting),
            final(self)@ == old(self)@.passed(i, waiting),
            acts(r.1@) == old(self)@.passing_acts(i, waiting),
    {
        let (gate, mut out) = self.wait_if_paused(waiting);
        match gate {
            Gate::Open => {
                let mut ended = self.end_epoch(i);
                let ghost (first, second) = (out@, ended@);
                out.append(&mut ended);
                assert(acts(out@) =~= acts(first) + acts(second));
            },
            _ => {
                assert(acts(out@) =~= old(self)@.passing_acts(i, waiting));
            },
        }
        (gate, out)
    }

    fn end_epoch(&mut self, i: u32) -> (r: Vec<Effect>)
        ensures
            final(self)@ == (RunState { epoch: i, ..old(self)@ }),
            acts(r@) == old(self)@.epoch_acts(i),
    {
        let ghost start = self@;
        self.epoch = i;
        let mut out: Vec<Effect> = Vec::new();
        let id = self.dir.run_id();
        let mut event = json::members();
        json::put(&mut event, "ev", json::text("epoch"));
        json::put(&mut event, "run", json::text(id.as_str()));
        json::put(&mut event, "epoch", json::unsigned(i as u64));
        json::put(&mut event, "of", json::unsigned(self.total_epochs as u64));
        self.record(json::object(event), &mut out);
        let mut values: Vec<String> = Vec::new();
        let mut k: usize = 0;
        while k < self.stats.len()
            invariant
                k <= self.stats@.len(),
                self@.stats == entries(self.stats@),
                values@.len() == k,
                forall|j: int|
                    0 <= j < k ==> (#[trigger] values@[j])@ == latest(self@.stats)[j],
            decreases self.stats@.len() - k,
        {
            let entry = &self.stats[k];
            let mut shown = entry.name.clone();
            shown.append("=");
            shown.append(entry.stat.last.text.as_str());
            assert(shown@ == latest(self@.stats)[k as int]);
            values.push(shown);
            k += 1;
        }
        assert(text::texts(values@) =~= latest(self@.stats));
        let joined = text::joined(&values, "  ");
        let mut msg = "epoch ".to_string();
        text::push_decimal(&mut msg, i as u64);
        msg.append("/");
        text::push_decimal(&mut msg, self.total_epochs as u64);
        msg.append("  ");
        msg.append(joined.as_str());
        self.say(msg.as_str(), &mut out);
        assert(acts(out@) =~= start.epoch_acts(i));
        out
    }

    /// Records an artifact by its kind and absolute path.
    pub fn artifact(&mut self, kind: &str, path: &str) -> (r: Vec<Effect>)
        ensures
            final(self)@ == (RunState {
                artifacts: old(self)@.artifacts.push((kind@, path@)),
                ..old(self)@
            }),
            acts(r@) == old(self)@.recorded(old(self)@.artifact_event(kind@, path@)),
    {
        let ghost start = self@;
        self.artifacts.push((kind.to_string(), path.to_string()));
        assert(self@ =~= RunState { artifacts: start.artifacts.push((kind@, path@)), ..start });
        let mut out: Vec<Effect> = Vec::new();
        let id = self.dir.run_id();
        let mut event = json::members();
        json::put(&mut event, "ev", json::text("artifact"));
        json::put(&mut event, "run", json::text(id.as_str()));
        json::put(&mut event, "kind", json::text(kind));
        json::put(&mut event, "path", json::text(path));
        self.record(json::object(event), &mut out);
        assert(acts(out@) =~= start.recorded(start.artifact_event(kind@, path@)));
        out
    }

    /// Records a message.
    pub fn info(&self, msg: &str) -> (r: Vec<Effect>)
        ensures
            acts(r@) == self@.info_acts(msg@),
    {
        let mut out: Vec<Effect> = Vec::new();
        let id = self.dir.run_id();
        let mut event = json::members();
        json::put(&mut event, "ev", json::text("log"));
        json::put(&mut event, "run", json::text(id.as_str()));
        json::put(&mut event, "level", json::text("info"));
        json::put(&mut event, "msg", json::text(msg));
        self.record(json::object(event), &mut out);
        self.say(msg, &mut out);
        assert(acts(out@) =~= self@.info_acts(msg@));
        out
    }

    fn stats_value(&self) -> (r: serde_json::Value)
        ensures
            json::json_model(r) == json::Json::Object(stats_json(self@.stats)),
    {
        let ghost all = self@.stats;
        let mut members = json::members();
        let mut i: usize = 0;
        assert(stats_json(all.take(0)) == json::no_members());
        while i < self.stats.len()
            invariant
                i <= self.stats@.len(),
                all == entries(self.stats@),
                json::json_members(members) == stats_json(all.take(i as int)),
            decreases self.stats@.len() - i,
        {
            let entry = &self.stats[i];
            let mut m = json::members();
            json::put(&mut m, "last", entry.stat.last.json.clone());
            json::put(&mut m, "min", entry.stat.min.json.clone());
            json::put(&mut m, "max", entry.stat.max.json.clone());
            json::put(&mut m, "count", json::unsigned(entry.stat.count));
            json::put(&mut members, entry.name.as_str(), json::object(m));
            proof {
                let more = all.take(i + 1);
                assert(more.drop_last() =~= all.take(i as int));
                assert(more.last() == entry@);
            }
            i += 1;
        }
        assert(all.take(i as int) =~= all);
        json::object(members)
    }

    fn artifacts_value(&self) -> (r: serde_json::Value)
        ensures
            json::json_model(r) == artifacts_json(self@.artifacts),
    {
        let mut items: Vec<serde_json::Value> = Vec::new();
        let mut i: usize = 0;
        while i < self.artifacts.len()
            invariant
                i <= self.artifacts@.len(),
                items@.len() == i,
                forall|j: int|
                    0 <= j < i ==> json::json_model(#[trigger] items@[j]) == json::Json::Object(
                        map![
                            "kind"@ => json::Json::Text(self@.artifacts[j].0),
                            "path"@ => json::Json::Text(self@.artifacts[j].1),
                        ],
                    ),
            decreases self.artifacts@.len() - i,
        {
            let (kind, path) = &self.artifacts[i];
            let mut m = json::members();
            json::put(&mut m, "kind", json::text(kind.as_str()));
            json::put(&mut m, "path", json::text(path.as_str()));
            items.push(json::object(m));
            i += 1;
        }
        let ghost list = self@.artifacts;
        assert(json::models(items@) =~= Seq::new(
            list.len(),
            |j: int|
                json::Json::Object(
                    map![
                        "kind"@ => json::Json::Text(list[j].0),
                        "path"@ => json::Json::Text(list[j].1),
                    ],
                ),
        ));
        json::array(items)
    }

    /// Ends the run at a given time.
    pub fn finish_at(self, status: &str, finished_at: &str) -> (r: Vec<Effect>)
        ensures
            acts(r@) == self@.finish_acts(status@, finished_at@),
    {
        let mut m = json::members();
        json::put(&mut m, "status", json::text(status));
        json::put(&mut m, "name", json::text(self.name.as_str()));
        json::put(&mut m, "startedAt", json::text(self.started_at.as_str()));
        json::put(&mut m, "finishedAt", json::text(finished_at));
        json::put(&mut m, "totalEpochs", json::unsigned(self.total_epochs as u64));
        json::put(&mut m, "lastEpoch", json::unsigned(self.epoch as u64));
        json::put(&mut m, "device", json::text(self.device.as_str()));
        json::put(&mut m, "metrics", self.stats_value());
        json::put(&mut m, "artifacts", self.artifacts_value());
        let summary = json::object(m);
        let ghost model = json::json_model(summary);
        let mut out: Vec<Effect> = Vec::new();
        let file = self.dir.write_summary(&summary);
        out.push(Effect::Write(file));
        let ghost first = acts(out@);
        let id = self.dir.run_id();
        let mut event = json::members();
        json::put(&mut event, "ev", json::text("run.finished"));
        json::put(&mut event, "run", json::text(id.as_str()));
        json::put(&mut event, "status", json::text(status));
        json::put(&mut event, "summary", summary);
        self.record(json::object(event), &mut out);
        let mut msg = "run ".to_string();
        msg.append(id.as_str());
        msg.append(" finished: ");
        msg.append(status);
        self.say(msg.as_str(), &mut out);
        proof {
            assert(model == self@.summary(status@, finished_at@));
            assert(first =~= seq![
                Act::Write {
                    path: self@.dir.push("summary.json"@),
                    tmp: self@.dir.push("summary.json.tmp"@),
                    text: run_store::file_text(model),
                },
            ]);
            assert(acts(out@) =~= self@.finish_acts(status@, finished_at@));
        }
        out
    }

    /// Ends the run now.
    pub fn finish(self, status: &str) -> (r: Vec<Effect>)
        ensures
            exists|secs: i64|
                acts(r@) == self@.finish_acts(
                    status@,
                    #[trigger] run_store::iso_text(secs as int),
                ),
    {
        let finished_at = run_store::now_iso();
        self.finish_at(status, finished_at.as_str())
    }
}

// ---------------------------------------------------------------------------
// The two records of a run.
// ---------------------------------------------------------------------------

/// The lines that are appended to files.
pub open spec fn appended(list: Seq<Act>) -> Seq<Seq<char>>
    decreases list.len(),
{
    if list.len() == 0 {
        Seq::empty()
    } else {
        match list.last() {
            Act::Append(_, line) => appended(list.drop_last()).push(line),
            _ => appended(list.drop_last()),
        }
    }
}

/// The lines that are printed on the standard output.
pub open spec fn on_stdout(list: Seq<Act>) -> Seq<Seq<char>>
    decreases list.len(),
{
    if list.len() == 0 {
        Seq::empty()
    } else {
        match list.last() {
            Act::Print(Stream::Stdout, line) => on_stdout(list.drop_last()).push(line),
            _ => on_stdout(list.drop_last()),
        }
    }
}

proof fn lemma_lines_add(a: Seq<Act>, b: Seq<Act>)
    ensures
        appended(a + b) == appended(a) + appended(b),
        on_stdout(a + b) == on_stdout(a) + on_stdout(b),
    decreases b.len(),
{
    if b.len() == 0 {
        assert(a + b =~= a);
        assert(appended(a + b) =~= appended(a) + appended(b));
        assert(on_stdout(a + b) =~= on_stdout(a) + on_stdout(b));
    } else {
        lemma_lines_add(a, b.drop_last());
        assert((a + b).drop_last() =~= a + b.drop_last());
        assert(appended(a + b) =~= appended(a) + appended(b));
        assert(on_stdout(a + b) =~= on_stdout(a) + on_stdout(b));
    }
}

proof fn lemma_parts(run: RunState, event: json::Json, msg: Seq<char>)
    requires
        run.protocol,
    ensures
        on_stdout(run.recorded(event)) == appended(run.recorded(event)),
        on_stdout(run.said(msg)) == appended(run.said(msg)),
{
    reveal_with_fuel(appended, 3);
    reveal_with_fuel(on_stdout, 3);
    let r = run.recorded(event);
    if r.len() == 2 {
        assert(r.drop_last().last() == r[0]);
        assert(r.drop_last().drop_last() =~= Seq::<Act>::empty());
        assert(on_stdout(r) =~= appended(r));
    }
    assert(run.said(msg).drop_last() =~= Seq::<Act>::empty());
}

proof fn lemma_log_stream(run: RunState, values: Seq<(Seq<char>, Measure)>, epoch: u32)
    requires
        run.protocol,
    ensures
        on_stdout(run.log_acts(values, epoch)) == appended(run.log_acts(values, epoch)),
    decreases values.len(),
{
    if values.len() > 0 {
        lemma_log_stream(run, values.drop_last(), epoch);
        let event = run.metric_event(run.step + 1, epoch, values.last().0, values.last().1);
        lemma_parts(run, event, Seq::empty());
        lemma_lines_add(run.log_acts(values.drop_last(), epoch), run.recorded(event));
    }
}

/// In protocol mode the standard output carries exactly the lines that the
/// metrics file gets, in the same order: nothing for people comes between them.
pub proof fn law_protocol_stream(
    run: RunState,
    config: json::Json,
    abs_dir: Seq<char>,
    values: Seq<(Seq<char>, Measure)>,
    epoch: u32,
    waiting: bool,
    msg: Seq<char>,
    kind: Seq<char>,
    path: Seq<char>,
    status: Seq<char>,
    at: Seq<char>,
)
    requires
        run.protocol,
    ensures
        on_stdout(run.start_acts(config, abs_dir)) == appended(run.start_acts(config, abs_dir)),
        on_stdout(run.log_acts(values, epoch)) == appended(run.log_acts(values, epoch)),
        on_stdout(run.passing_acts(epoch, waiting)) == appended(run.passing_acts(epoch, waiting)),
        on_stdout(run.recorded(run.artifact_event(kind, path))) == appended(
            run.recorded(run.artifact_event(kind, path)),
        ),
        on_stdout(run.info_acts(msg)) == appended(run.info_acts(msg)),
        on_stdout(run.said(msg)) == appended(run.said(msg)),
        on_stdout(run.finish_acts(status, at)) == appended(run.finish_acts(status, at)),
{
    reveal_with_fuel(appended, 2);
    reveal_with_fuel(on_stdout, 2);
    let started = run.started_event(config, abs_dir);
    let hello = "run "@ + run.id + " started"@;
    let write = seq![run.start_acts(config, abs_dir)[0]];
    let watch = seq![Act::WatchControl];
    assert(write.drop_last() =~= Seq::<Act>::empty());
    assert(watch.drop_last() =~= Seq::<Act>::empty());
    lemma_parts(run, started, hello);
    lemma_lines_add(write, run.recorded(started));
    lemma_lines_add(write + run.recorded(started), run.said(hello));
    lemma_lines_add(write + run.recorded(started) + run.said(hello), watch);
    assert(run.start_acts(config, abs_dir) =~= write + run.recorded(started) + run.said(hello)
        + watch);
    lemma_log_stream(run, values, epoch);
    let line = "epoch "@ + text::decimal(epoch as nat) + "/"@ + text::decimal(
        run.total_epochs as nat,
    ) + "  "@ + text::join(latest(run.stats), "  "@);
    lemma_parts(run, run.epoch_event(epoch), line);
    lemma_lines_add(run.recorded(run.epoch_event(epoch)), run.said(line));
    lemma_parts(run, run.epoch_event(epoch), "paused"@);
    lemma_parts(run, run.epoch_event(epoch), "resumed"@);
    lemma_lines_add(run.gate_acts(waiting), run.epoch_acts(epoch));
    assert(run.gate(waiting) != Gate::Open ==> run.passing_acts(epoch, waiting)
        =~= run.gate_acts(waiting));
    lemma_parts(run, run.artifact_event(kind, path), msg);
    lemma_parts(run, run.info_event(msg), msg);
    lemma_lines_add(run.recorded(run.info_event(msg)), run.said(msg));
    let summary = run.summary(status, at);
    let finished = run.finished_event(status, summary);
    let bye = "run "@ + run.id + " finished: "@ + status;
    let last = seq![run.finish_acts(status, at)[0]];
    assert(last.drop_last() =~= Seq::<Act>::empty());
    lemma_parts(run, finished, bye);
    lemma_lines_add(last, run.recorded(finished));
    lemma_lines_add(last + run.recorded(finished), run.said(bye));
    assert(run.finish_acts(status, at) =~= last + run.recorded(finished) + run.said(bye));
}

// ---------------------------------------------------------------------------
// What the records say.
// ---------------------------------------------------------------------------

/// The statistics of any series of values, numbers or not: the last value, how
/// many there were, and two of the values that no other is below or above. These
/// are numbers as soon as one of the values is.
pub proof fn law_series_of_any_values(values: Seq<Measure>)
    requires
        values.len() > 0,
    ensures
        series_of(values).last == values.last(),
        series_of(values).count == values.len(),
        values.contains(series_of(values).min),
        values.contains(series_of(values).max),
        forall|i: int|
            0 <= i < values.len() ==> !(#[trigger] values[i]).real.is_less(
                series_of(values).min.real,
            ) && !series_of(values).max.real.is_less(values[i].real),
        forall|i: int|
            0 <= i < values.len() && !(#[trigger] values[i]).real.is_nan()
                ==> !series_of(values).min.real.is_nan() && !series_of(values).max.real.is_nan(),
    decreases values.len(),
{
    if values.len() > 1 {
        let front = values.drop_last();
        law_series_of_any_values(front);
        let a = series_of(front).min;
        let b = series_of(front).max;
        let i = choose|i: int| 0 <= i < front.len() && front[i] == a;
        let j = choose|j: int| 0 <= j < front.len() && front[j] == b;
        assert(values[i] == a);
        assert(values[j] == b);
        assert(values[values.len() - 1] == values.last());
        assert forall|k: int| 0 <= k < values.len() implies !(#[trigger] values[k]).real.is_less(
            series_of(values).min.real,
        ) && !series_of(values).max.real.is_less(values[k].real) by {
            if k < front.len() {
                assert(front[k] == values[k]);
            }
        }
        assert forall|k: int|
            0 <= k < values.len() && !(#[trigger] values[k]).real.is_nan() implies !series_of(
            values,
        ).min.real.is_nan() && !series_of(values).max.real.is_nan() by {
            if k < front.len() {
                assert(front[k] == values[k]);
            }
        }
    } else {
        assert(values[0] == values.last());
    }
}

/// Logging metrics appends one line to the metrics file for each, in order: its
/// event at the next step. Only a value that cannot be written has no line.
pub proof fn law_one_line_for_each_metric(
    run: RunState,
    values: Seq<(Seq<char>, Measure)>,
    epoch: u32,
)
    requires
        forall|i: int|
            0 <= i < values.len() ==> protocol::event_line(
                run.metric_event(
                    run.step + 1,
                    epoch,
                    (#[trigger] values[i]).0,
                    values[i].1,
                ),
            ) is Some,
    ensures
        appended(run.log_acts(values, epoch)).len() == values.len(),
        forall|i: int|
            0 <= i < values.len() ==> Some(#[trigger] appended(run.log_acts(values, epoch))[i])
                == protocol::event_line(
                run.metric_event(run.step + 1, epoch, values[i].0, values[i].1),
            ),
        run.logged(values).step == run.step + 1,
    decreases values.len(),
{
    if values.len() == 0 {
        reveal_with_fuel(appended, 1);
    } else {
        let front = values.drop_last();
        let last = values.last();
        assert forall|i: int| 0 <= i < front.len() implies protocol::event_line(
            run.metric_event(run.step + 1, epoch, (#[trigger] front[i]).0, front[i].1),
        ) is Some by {
            assert(front[i] == values[i]);
        }
        law_one_line_for_each_metric(run, front, epoch);
        let event = run.metric_event(run.step + 1, epoch, last.0, last.1);
        assert(values[values.len() - 1] == last);
        lemma_lines_add(run.log_acts(front, epoch), run.recorded(event));
        let line = protocol::event_line(event)->0;
        lemma_recorded_line(run, event);
        let all = appended(run.log_acts(values, epoch));
        assert(all == appended(run.log_acts(front, epoch)) + seq![line]);
        assert forall|i: int| 0 <= i < values.len() implies Some(#[trigger] all[i])
            == protocol::event_line(
            run.metric_event(run.step + 1, epoch, values[i].0, values[i].1),
        ) by {
            if i < front.len() {
                assert(all[i] == appended(run.log_acts(front, epoch))[i]);
                assert(front[i] == values[i]);
            }
        }
    }
}

proof fn lemma_recorded_line(run: RunState, event: json::Json)
    requires
        protocol::event_line(event) is Some,
    ensures
        appended(run.recorded(event)) == seq![protocol::event_line(event)->0],
{
    reveal_with_fuel(appended, 3);
    let r = run.recorded(event);
    if r.len() == 2 {
        assert(r.drop_last().last() == r[0]);
        assert(r.drop_last().drop_last() =~= Seq::<Act>::empty());
    } else {
        assert(r.drop_last() =~= Seq::<Act>::empty());
    }
    assert(appended(r) =~= seq![protocol::event_line(event)->0]);
}

/// Every event goes to the metrics file of the run, in protocol mode also to the
/// standard output, and without it to nothing else. Lines for people go to the
/// standard output, but in protocol mode to the standard error.
pub proof fn law_where_events_go(run: RunState, event: json::Json, msg: Seq<char>)
    requires
        protocol::event_line(event) is Some,
    ensures
        ({
            let line = protocol::event_line(event)->0;
            &&& run.recorded(event).contains(Act::Append(run.dir.push("metrics.jsonl"@), line))
            &&& run.recorded(event).len() == if run.protocol {
                2int
            } else {
                1int
            }
            &&& on_stdout(run.recorded(event)) == if run.protocol {
                seq![line]
            } else {
                Seq::empty()
            }
            &&& on_stdout(run.said(msg)) == if run.protocol {
                Seq::empty()
            } else {
                seq![msg + "\n"@]
            }
            &&& run.said(msg).len() == 1
            &&& appended(run.said(msg)).len() == 0
            &&& run.protocol ==> run.said(msg)[0] == Act::Print(Stream::Stderr, msg + "\n"@)
        }),
{
    let line = protocol::event_line(event)->0;
    let r = run.recorded(event);
    reveal_with_fuel(on_stdout, 3);
    reveal_with_fuel(appended, 3);
    assert(r[0] == Act::Append(run.dir.push("metrics.jsonl"@), line));
    if run.protocol {
        assert(r.drop_last().last() == r[0]);
        assert(r.drop_last().drop_last() =~= Seq::<Act>::empty());
        assert(on_stdout(r) =~= seq![line]);
    } else {
        assert(r.drop_last() =~= Seq::<Act>::empty());
    }
    assert(run.said(msg).drop_last() =~= Seq::<Act>::empty());
    assert(!run.protocol ==> on_stdout(run.said(msg)) =~= seq![msg + "\n"@]);
}

/// What a JSON object holds under a name.
pub open spec fn member_of(value: json::Json, name: Seq<char>) -> Option<json::Json> {
    match value {
        json::Json::Object(members) => if members.contains_key(name) {
            Some(members[name])
        } else {
            None
        },
        _ => None,
    }
}

/// An event says what it is and of which run, and carries what it is about.
pub proof fn law_events_tell(
    run: RunState,
    step: u64,
    epoch: u32,
    name: Seq<char>,
    value: Measure,
    msg: Seq<char>,
    kind: Seq<char>,
    path: Seq<char>,
)
    ensures
        ({
            let e = run.metric_event(step as nat, epoch, name, value);
            &&& member_of(e, "ev"@) == Some(json::Json::Text("metric"@))
            &&& member_of(e, "run"@) == Some(json::Json::Text(run.id))
            &&& member_of(e, "step"@) == Some(json::Json::Unsigned(step))
            &&& member_of(e, "epoch"@) == Some(json::Json::Unsigned(epoch as u64))
            &&& member_of(e, "name"@) == Some(json::Json::Text(name))
            &&& member_of(e, "value"@) == Some(value.json)
        }),
        ({
            let e = run.epoch_event(epoch);
            &&& member_of(e, "ev"@) == Some(json::Json::Text("epoch"@))
            &&& member_of(e, "run"@) == Some(json::Json::Text(run.id))
            &&& member_of(e, "epoch"@) == Some(json::Json::Unsigned(epoch as u64))
            &&& member_of(e, "of"@) == Some(json::Json::Unsigned(run.total_epochs as u64))
        }),
        ({
            let e = run.artifact_event(kind, path);
            &&& member_of(e, "ev"@) == Some(json::Json::Text("artifact"@))
            &&& member_of(e, "run"@) == Some(json::Json::Text(run.id))
            &&& member_of(e, "kind"@) == Some(json::Json::Text(kind))
            &&& member_of(e, "path"@) == Some(json::Json::Text(path))
        }),
        ({
            let e = run.info_event(msg);
            &&& member_of(e, "ev"@) == Some(json::Json::Text("log"@))
            &&& member_of(e, "run"@) == Some(json::Json::Text(run.id))
            &&& member_of(e, "level"@) == Some(json::Json::Text("info"@))
            &&& member_of(e, "msg"@) == Some(json::Json::Text(msg))
        }),
{
    reveal_strlit("ev");
    reveal_strlit("run");
    reveal_strlit("step");
    reveal_strlit("epoch");
    reveal_strlit("name");
    reveal_strlit("value");
    reveal_strlit("of");
    reveal_strlit("kind");
    reveal_strlit("path");
    reveal_strlit("level");
    reveal_strlit("msg");
    assert("ev"@.len() == 2 && "of"@.len() == 2 && "run"@.len() == 3 && "msg"@.len() == 3);
    assert("step"@.len() == 4 && "name"@.len() == 4 && "kind"@.len() == 4 && "path"@.len() == 4);
    assert("epoch"@.len() == 5 && "value"@.len() == 5 && "level"@.len() == 5);
    assert("ev"@[0] == 'e' && "of"@[0] == 'o' && "run"@[0] == 'r' && "msg"@[0] == 'm');
    assert("step"@[0] == 's' && "name"@[0] == 'n' && "kind"@[0] == 'k' && "path"@[0] == 'p');
    assert("epoch"@[0] == 'e' && "value"@[0] == 'v' && "level"@[0] == 'l');
}

/// The first event of a run tells what the run is.
pub proof fn law_start_tells(run: RunState, config: json::Json, abs_dir: Seq<char>)
    ensures
        ({
            let e = run.started_event(config, abs_dir);
            &&& member_of(e, "ev"@) == Some(json::Json::Text("run.started"@))
            &&& member_of(e, "run"@) == Some(json::Json::Text(run.id))
            &&& member_of(e, "name"@) == Some(json::Json::Text(run.name))
            &&& member_of(e, "dir"@) == Some(json::Json::Text(abs_dir))
            &&& member_of(e, "config"@) == Some(config)
            &&& member_of(e, "totalEpochs"@) == Some(json::Json::Unsigned(run.total_epochs as u64))
            &&& member_of(e, "device"@) == Some(json::Json::Text(run.device))
            &&& member_of(e, "protocol"@) == Some(json::Json::Unsigned(1))
            &&& member_of(e, "startedAt"@) == Some(json::Json::Text(run.started_at))
        }),
{
    reveal_strlit("ev");
    reveal_strlit("run");
    reveal_strlit("name");
    reveal_strlit("dir");
    reveal_strlit("config");
    reveal_strlit("totalEpochs");
    reveal_strlit("device");
    reveal_strlit("protocol");
    reveal_strlit("startedAt");
    assert("ev"@.len() == 2 && "run"@.len() == 3 && "dir"@.len() == 3 && "name"@.len() == 4);
    assert("config"@.len() == 6 && "device"@.len() == 6 && "protocol"@.len() == 8);
    assert("totalEpochs"@.len() == 11 && "startedAt"@.len() == 9);
    assert("run"@[0] == 'r' && "dir"@[0] == 'd' && "config"@[0] == 'c' && "device"@[0] == 'd');
}

/// The summary of a run tells what the run was: how it ended, when, after which
/// epoch, and every metric and artifact of it. It is written to the directory of
/// the run and goes with the last event.
pub proof fn law_summary_tells(run: RunState, status: Seq<char>, finished_at: Seq<char>)
    ensures
        ({
            let s = run.summary(status, finished_at);
            &&& member_of(s, "status"@) == Some(json::Json::Text(status))
            &&& member_of(s, "name"@) == Some(json::Json::Text(run.name))
            &&& member_of(s, "startedAt"@) == Some(json::Json::Text(run.started_at))
            &&& member_of(s, "finishedAt"@) == Some(json::Json::Text(finished_at))
            &&& member_of(s, "totalEpochs"@) == Some(json::Json::Unsigned(run.total_epochs as u64))
            &&& member_of(s, "lastEpoch"@) == Some(json::Json::Unsigned(run.epoch as u64))
            &&& member_of(s, "device"@) == Some(json::Json::Text(run.device))
            &&& member_of(s, "metrics"@) == Some(json::Json::Object(stats_json(run.stats)))
            &&& member_of(s, "artifacts"@) == Some(artifacts_json(run.artifacts))
            &&& run.finish_acts(status, finished_at)[0] == (Act::Write {
                path: run.dir.push("summary.json"@),
                tmp: run.dir.push("summary.json.tmp"@),
                text: run_store::file_text(s),
            })
            &&& member_of(run.finished_event(status, s), "summary"@) == Some(s)
            &&& member_of(run.finished_event(status, s), "status"@) == Some(
                json::Json::Text(status),
            )
        }),
{
    reveal_strlit("ev");
    reveal_strlit("run");
    reveal_strlit("status");
    reveal_strlit("summary");
    reveal_strlit("name");
    reveal_strlit("startedAt");
    reveal_strlit("finishedAt");
    reveal_strlit("totalEpochs");
    reveal_strlit("lastEpoch");
    reveal_strlit("device");
    reveal_strlit("metrics");
    reveal_strlit("artifacts");
    assert("ev"@.len() == 2 && "run"@.len() == 3 && "name"@.len() == 4 && "status"@.len() == 6);
    assert("device"@.len() == 6 && "summary"@.len() == 7 && "metrics"@.len() == 7);
    assert("startedAt"@.len() == 9 && "lastEpoch"@.len() == 9 && "artifacts"@.len() == 9);
    assert("finishedAt"@.len() == 10 && "totalEpochs"@.len() == 11);
    assert("status"@[0] == 's' && "device"@[0] == 'd');
    assert("startedAt"@[0] == 's' && "lastEpoch"@[0] == 'l' && "artifacts"@[0] == 'a');
}

/// The statistics tell of every metric, and of nothing else: its last, least and
/// greatest value and how many there were.
pub proof fn law_statistics_tell(list: Seq<(Seq<char>, Series)>)
    requires
        in_order(list),
    ensures
        forall|name: Seq<char>| #[trigger]
            stats_json(list).contains_key(name) <==> exists|i: int|
                0 <= i < list.len() && (#[trigger] list[i]).0 == name,
        forall|i: int|
            0 <= i < list.len() ==> {
                let told = stats_json(list)[(#[trigger] list[i]).0];
                &&& member_of(told, "last"@) == Some(list[i].1.last.json)
                &&& member_of(told, "min"@) == Some(list[i].1.min.json)
                &&& member_of(told, "max"@) == Some(list[i].1.max.json)
                &&& member_of(told, "count"@) == Some(
                    json::Json::Unsigned(list[i].1.count as u64),
                )
            },
    decreases list.len(),
{
    reveal_strlit("last");
    reveal_strlit("min");
    reveal_strlit("max");
    reveal_strlit("count");
    assert("last"@.len() == 4 && "min"@.len() == 3 && "max"@.len() == 3 && "count"@.len() == 5);
    assert("min"@[1] == 'i' && "max"@[1] == 'a');
    if list.len() > 0 {
        let front = list.drop_last();
        let last = list.last();
        let n = front.len() as int;
        assert(list[n] == last);
        assert forall|i: int, j: int| 0 <= i < j < front.len() implies text::text_less(
            (#[trigger] front[i]).0,
            (#[trigger] front[j]).0,
        ) by {
            assert(text::text_less(list[i].0, list[j].0));
        }
        law_statistics_tell(front);
        let (all, before) = (stats_json(list), stats_json(front));
        assert(all == before.insert(last.0, series_json(last.1)));
        assert forall|name: Seq<char>| #[trigger] all.contains_key(name) <==> exists|i: int|
            0 <= i < list.len() && (#[trigger] list[i]).0 == name by {
            if before.contains_key(name) {
                let i = choose|i: int| 0 <= i < front.len() && (#[trigger] front[i]).0 == name;
                assert(list[i].0 == name);
            }
            if exists|i: int| 0 <= i < list.len() && (#[trigger] list[i]).0 == name {
                let i = choose|i: int| 0 <= i < list.len() && (#[trigger] list[i]).0 == name;
                if i < n {
                    assert(front[i].0 == name);
                }
            }
        }
        assert forall|i: int| 0 <= i < list.len() implies all[(#[trigger] list[i]).0]
            == series_json(list[i].1) by {
            if i < n {
                assert(text::text_less(list[i].0, list[n].0));
                text::lemma_text_less_irreflexive(last.0);
                assert(front[i] == list[i]);
                lemma_stats_at(front, i);
            }
        }
    }
}

proof fn lemma_stats_at(list: Seq<(Seq<char>, Series)>, i: int)
    requires
        in_order(list),
        0 <= i < list.len(),
    ensures
        stats_json(list)[list[i].0] == series_json(list[i].1),
    decreases list.len(),
{
    let front = list.drop_last();
    let n = front.len() as int;
    assert(list[n] == list.last());
    if i < n {
        assert(text::text_less(list[i].0, list[n].0));
        text::lemma_text_less_irreflexive(list[n].0);
        assert forall|a: int, b: int| 0 <= a < b < front.len() implies text::text_less(
            (#[trigger] front[a]).0,
            (#[trigger] front[b]).0,
        ) by {
            assert(text::text_less(list[a].0, list[b].0));
        }
        lemma_stats_at(front, i);
    }
}

/// The artifacts of a summary are those of the run, in order.
pub proof fn law_artifacts_tell(list: Seq<(Seq<char>, Seq<char>)>)
    ensures
        artifacts_json(list) matches json::Json::Array(told) && told.len() == list.len()
            && forall|i: int|
            0 <= i < list.len() ==> {
                &&& member_of(#[trigger] told[i], "kind"@) == Some(json::Json::Text(list[i].0))
                &&& member_of(told[i], "path"@) == Some(json::Json::Text(list[i].1))
            },
{
    reveal_strlit("kind");
    reveal_strlit("path");
    assert("kind"@[0] == 'k' && "path"@[0] == 'p');
}

/// A line carries a command where it is an object with a text under `cmd`, and
/// none otherwise.
pub proof fn law_command_of_a_line(members: Map<Seq<char>, json::Json>, word: Seq<char>)
    ensures
        members.contains_key("cmd"@) && members["cmd"@] == json::Json::Text(word) ==> command(
            Some(json::Json::Object(members)),
        ) == Some(word),
        !members.contains_key("cmd"@) || !(members["cmd"@] is Text) ==> command(
            Some(json::Json::Object(members)),
        ) is None,
        command(None) is None,
{
}

/// The three commands do what they say, whatever was asked before; any other word
/// changes nothing.
pub proof fn law_commands_do_what_they_say(c: Control, word: Seq<char>)
    ensures
        obeyed(c, Some("pause"@)) == (Control { pause: true, ..c }),
        obeyed(c, Some("resume"@)) == (Control { pause: false, ..c }),
        obeyed(c, Some("cancel"@)).cancel,
        !obeyed(c, Some("cancel"@)).pause,
        word != "pause"@ && word != "resume"@ && word != "cancel"@ ==> obeyed(c, Some(word)) == c,
        obeyed(c, None) == c,
{
    law_last_command_decides(c, "pause"@);
    law_last_command_decides(c, "resume"@);
    law_last_command_decides(c, "cancel"@);
    reveal_strlit("pause");
    reveal_strlit("resume");
    reveal_strlit("cancel");
    assert("pause"@.len() == 5 && "resume"@.len() == 6 && "cancel"@.len() == 6);
    assert("resume"@[0] == 'r' && "cancel"@[0] == 'c');
}

/// A run begins by writing its configuration; then come the first event and a line
/// for people, and in protocol mode it begins to listen to commands.
pub proof fn law_start_acts(run: RunState, config: json::Json, abs_dir: Seq<char>)
    requires
        protocol::event_line(run.started_event(config, abs_dir)) is Some,
    ensures
        ({
            let acts = run.start_acts(config, abs_dir);
            let line = protocol::event_line(run.started_event(config, abs_dir))->0;
            &&& acts[0] == (Act::Write {
                path: run.dir.push("config.json"@),
                tmp: run.dir.push("config.json.tmp"@),
                text: run_store::file_text(config),
            })
            &&& acts[1] == Act::Append(run.dir.push("metrics.jsonl"@), line)
            &&& acts.len() == if run.protocol {
                5int
            } else {
                3int
            }
            &&& run.protocol ==> acts[2] == Act::Print(Stream::Stdout, line) && acts[4]
                == Act::WatchControl
            &&& acts.contains(
                Act::Print(
                    if run.protocol {
                        Stream::Stderr
                    } else {
                        Stream::Stdout
                    },
                    "run "@ + run.id + " started"@ + "\n"@,
                ),
            )
        }),
{
    let acts = run.start_acts(config, abs_dir);
    let said = if run.protocol {
        3int
    } else {
        2int
    };
    assert(acts[said] == run.said("run "@ + run.id + " started"@)[0]);
}

/// The line for people at the end of an epoch shows the epoch and the latest value
/// of every metric, in the order of their names.
pub proof fn law_epoch_line_shows_every_metric(run: RunState, i: u32)
    ensures
        latest(run.stats).len() == run.stats.len(),
        forall|k: int|
            0 <= k < run.stats.len() ==> #[trigger] latest(run.stats)[k] == run.stats[k].0 + "="@
                + run.stats[k].1.last.text,
        run.epoch_acts(i).last() == run.said(
            "epoch "@ + text::decimal(i as nat) + "/"@ + text::decimal(run.total_epochs as nat)
                + "  "@ + text::join(latest(run.stats), "  "@),
        )[0],
        run.epoch_acts(i) == run.recorded(run.epoch_event(i)).push(run.epoch_acts(i).last()),
{
    let line = "epoch "@ + text::decimal(i as nat) + "/"@ + text::decimal(run.total_epochs as nat)
        + "  "@ + text::join(latest(run.stats), "  "@);
    assert(run.epoch_acts(i) =~= run.recorded(run.epoch_event(i)).push(run.said(line)[0]));
}

/// A run waits at the end of an epoch exactly while it is paused and not cancelled;
/// it says so when it begins to wait and when it goes on.
pub proof fn law_waits_while_paused(run: RunState)
    ensures
        run.gate(false) == Gate::Open <==> !run.control.pause,
        run.gate(true) == Gate::Open <==> !run.control.pause || run.control.cancel,
        run.gate(false) == Gate::Closing ==> run.gate_acts(false) == run.said("paused"@),
        run.gate(true) == Gate::Open ==> run.gate_acts(true) == run.said("resumed"@),
        run.gate(false) == Gate::Open ==> run.gate_acts(false).len() == 0,
        run.gate(true) == Gate::Closed ==> run.gate_acts(true).len() == 0,
        run.gate(false) != Gate::Closed,
        run.gate(true) != Gate::Closing,
{
}

/// A run begins with what it is given, and with nothing done.
pub proof fn law_fresh_run(
    name: Seq<char>,
    dir: RunDir,
    total_epochs: u32,
    device: Seq<char>,
    started_at: Seq<char>,
    protocol: bool,
)
    ensures
        ({
            let run = RunState::fresh(name, dir, total_epochs, device, started_at, protocol);
            &&& run.name == name
            &&& run.dir == dir.names()
            &&& run.id == dir.id()
            &&& run.total_epochs == total_epochs
            &&& run.device == device
            &&& run.started_at == started_at
            &&& run.protocol == protocol
            &&& run.step == 0
            &&& run.epoch == 0
            &&& run.stats.len() == 0
            &&& run.artifacts.len() == 0
            &&& !run.control.cancel
            &&& !run.control.pause
        }),
{
}

/// At the end of an epoch its event is recorded, and the line for people follows,
/// unless the run is held there; a message is recorded and said; and at the end the
/// summary is written, its event recorded and the end said.
pub proof fn law_what_is_recorded(
    run: RunState,
    i: u32,
    waiting: bool,
    msg: Seq<char>,
    status: Seq<char>,
    at: Seq<char>,
)
    ensures
        run.gate(waiting) == Gate::Open ==> run.passing_acts(i, waiting) == run.gate_acts(waiting)
            + run.epoch_acts(i),
        run.gate(waiting) != Gate::Open ==> run.passing_acts(i, waiting) == run.gate_acts(waiting),
        run.passed(i, waiting).epoch == if run.gate(waiting) == Gate::Open {
            i
        } else {
            run.epoch
        },
        run.info_acts(msg) == run.recorded(run.info_event(msg)) + run.said(msg),
        run.finish_acts(status, at).skip(1) == run.recorded(
            run.finished_event(status, run.summary(status, at)),
        ) + run.said("run "@ + run.id + " finished: "@ + status),
{
    assert(run.gate(waiting) != Gate::Open ==> run.passing_acts(i, waiting) =~= run.gate_acts(
        waiting,
    ));
    assert(run.finish_acts(status, at).skip(1) =~= run.recorded(
        run.finished_event(status, run.summary(status, at)),
    ) + run.said("run "@ + run.id + " finished: "@ + status));
}

/// Values that are logged one after the other are known as if they had been logged
/// together.
pub proof fn law_values_add_up(
    list: Seq<(Seq<char>, Series)>,
    a: Seq<(Seq<char>, Measure)>,
    b: Seq<(Seq<char>, Measure)>,
)
    ensures
        with_values(list, a + b) == with_values(with_values(list, a), b),
    decreases b.len(),
{
    if b.len() == 0 {
        assert(a + b =~= a);
    } else {
        law_values_add_up(list, a, b.drop_last());
        assert((a + b).drop_last() =~= a + b.drop_last());
        assert((a + b).last() == b.last());
    }
}

} // verus!
