//! The command line: what the arguments ask for, what the answer says, and what
//! a new project begins with.
use vstd::prelude::*;
use vstd::string::StringExecFns;

use crate::json;
use crate::protocol::{Emitter, Stream};
use crate::text;

verus! {

pub const VERSION: &'static str = "0.5.2";

pub const TABULAR_TOML: &'static str = "\
# nexis-ml-rs (Phase 3 engine) — an MLP over tabular data.
# Point [data] at a CSV, or leave it for built-in synthetic data, then
# run `nexis-ml train`.

[train]
epochs = 20
batch_size = 16
lr = 0.2
val_split = 0.2
seed = 42
samples = 240        # synthetic two-blob points (when no [data] path)
device = \"auto\"       # auto | cpu | gpu  (auto uses the GPU via wgpu when present)

[model]
hidden = [16]        # MLP hidden-layer widths (a single int also works)
";

pub const IMAGE_TOML: &'static str = "\
# nexis-ml-rs (Phase 3 engine) — a small CNN over folder-per-class images.
# Ships four example pattern classes under data/ so `nexis-ml train` works
# right away; replace them with your own data/<class>/*.png (one folder per
# class) when you're ready.

[train]
epochs = 12
batch_size = 16
lr = 0.01
val_split = 0.2
seed = 42
device = \"auto\"       # auto | cpu | gpu

[data]
path = \"data\"         # a folder of class sub-folders (one per class)

[model]
conv1 = 16
conv2 = 32
hidden = 64
";

/// Whether an argument is a flag.
pub open spec fn is_flag(arg: Seq<char>) -> bool {
    arg.len() >= 2 && arg[0] == '-' && arg[1] == '-'
}

/// The arguments that are no flags.
pub open spec fn words(args: Seq<Seq<char>>) -> Seq<Seq<char>>
    decreases args.len(),
{
    if args.len() == 0 {
        Seq::empty()
    } else if is_flag(args.last()) {
        words(args.drop_last())
    } else {
        words(args.drop_last()).push(args.last())
    }
}

/// What follows the first occurrence of a word in a list; nothing where the word
/// does not occur.
pub open spec fn after_first(list: Seq<Seq<char>>, word: Seq<char>) -> Seq<Seq<char>>
    decreases list.len(),
{
    if list.len() == 0 {
        Seq::empty()
    } else if list[0] == word {
        list.skip(1)
    } else {
        after_first(list.skip(1), word)
    }
}

fn flag(arg: &str) -> (r: bool)
    ensures
        r == is_flag(arg@),
{
    let v = text::chars_of(arg);
    v.len() >= 2 && v[0] == '-' && v[1] == '-'
}

/// The arguments that are no flags.
fn plain_words(args: &Vec<String>) -> (r: Vec<String>)
    ensures
        text::texts(r@) == words(text::texts(args@)),
{
    let ghost all = text::texts(args@);
    let mut r: Vec<String> = Vec::new();
    let mut i: usize = 0;
    assert(text::texts(r@) =~= words(all.take(0)));
    while i < args.len()
        invariant
            i <= args@.len(),
            all == text::texts(args@),
            text::texts(r@) == words(all.take(i as int)),
        decreases args@.len() - i,
    {
        let ghost before = text::texts(r@);
        assert(all.take(i + 1).drop_last() =~= all.take(i as int));
        assert(all.take(i + 1).last() == args@[i as int]@);
        if !flag(args[i].as_str()) {
            r.push(args[i].clone());
            assert(text::texts(r@) =~= before.push(args@[i as int]@));
        }
        i += 1;
    }
    assert(all.take(i as int) =~= all);
    r
}

/// The arguments after the command that are no flags.
pub fn positionals(args: &Vec<String>, cmd: &str) -> (r: Vec<String>)
    ensures
        text::texts(r@) == after_first(words(text::texts(args@)), cmd@),
{
    let list = plain_words(args);
    let ghost all = text::texts(list@);
    let mut r: Vec<String> = Vec::new();
    let mut found = false;
    let mut i: usize = 0;
    assert(all.skip(0) =~= all);
    while i < list.len()
        invariant
            i <= list@.len(),
            all == text::texts(list@),
            !found ==> r@.len() == 0 && after_first(all, cmd@) == after_first(
                all.skip(i as int),
                cmd@,
            ),
            found ==> after_first(all, cmd@) == text::texts(r@) + all.skip(i as int),
        decreases list@.len() - i,
    {
        let ghost before = text::texts(r@);
        let ghost rest = all.skip(i as int);
        proof {
            assert(rest[0] == list@[i as int]@);
            assert(rest.skip(1) =~= all.skip(i + 1));
        }
        if found {
            r.push(list[i].clone());
            proof {
                assert(text::texts(r@) =~= before.push(rest[0]));
                assert(before + rest =~= before.push(rest[0]) + all.skip(i + 1));
            }
        } else if text::same(list[i].as_str(), cmd) {
            found = true;
            assert(text::texts(r@) + all.skip(i + 1) =~= all.skip(i + 1));
        }
        i += 1;
    }
    assert(text::texts(r@) + all.skip(i as int) =~= text::texts(r@));
    r
}

/// What a new project begins with.
#[derive(Clone, Copy, Debug, PartialEq, Eq, Structural)]
pub enum Template {
    Tabular,
    Image,
}

impl Template {
    /// The name of the template.
    pub open spec fn word(&self) -> Seq<char> {
        match self {
            Template::Tabular => "tabular"@,
            Template::Image => "image"@,
        }
    }

    pub fn name(&self) -> (r: &'static str)
        ensures
            r@ == self.word(),
    {
        match self {
            Template::Tabular => "tabular",
            Template::Image => "image",
        }
    }

    /// The configuration file of a new project.
    pub fn toml(&self) -> (r: &'static str)
        ensures
            r@ == match self {
                Template::Tabular => TABULAR_TOML@,
                Template::Image => IMAGE_TOML@,
            },
    {
        match self {
            Template::Tabular => TABULAR_TOML,
            Template::Image => IMAGE_TOML,
        }
    }
}

/// What the arguments ask for.
pub enum Command {
    Version,
    Env,
    New { template: Template, dir: String },
    Train { dir: String },
    Export { dir: String },
    /// Nothing that can be done: a line for the standard error.
    Refuse { line: String },
}

/// What the arguments ask for, in mathematical terms.
pub enum Request {
    Version,
    Env,
    New { template: Template, dir: Seq<char> },
    Train { dir: Seq<char> },
    Export { dir: Seq<char> },
    Refuse { line: Seq<char> },
}

impl Command {
    pub open spec fn request(&self) -> Request {
        match self {
            Command::Version => Request::Version,
            Command::Env => Request::Env,
            Command::New { template, dir } => Request::New { template: *template, dir: dir@ },
            Command::Train { dir } => Request::Train { dir: dir@ },
            Command::Export { dir } => Request::Export { dir: dir@ },
            Command::Refuse { line } => Request::Refuse { line: line@ },
        }
    }
}

/// The exit code for arguments that ask for nothing that can be done.
pub const USAGE_CODE: i32 = 2;

/// The exit code for a command that fails.
pub const ERROR_CODE: i32 = 1;

/// What `new` asks for: the template first, `tabular` where it is left out, then
/// the directory, named after the template where it is left out.
pub open spec fn new_request(pos: Seq<Seq<char>>) -> Request {
    let template = if pos.len() > 0 {
        pos[0]
    } else {
        "tabular"@
    };
    let dir = if pos.len() > 1 {
        pos[1]
    } else {
        template
    };
    if template == "tabular"@ {
        Request::New { template: Template::Tabular, dir }
    } else if template == "image"@ {
        Request::New { template: Template::Image, dir }
    } else {
        Request::Refuse {
            line: "error: unknown template '"@ + template
                + "' (this engine supports: tabular, image)\n"@,
        }
    }
}

/// The directory that a command works on.
pub open spec fn dir_of(pos: Seq<Seq<char>>) -> Seq<char> {
    if pos.len() > 0 {
        pos[0]
    } else {
        "."@
    }
}

/// What `export` asks for; the format must be given.
pub open spec fn export_request(args: Seq<Seq<char>>, pos: Seq<Seq<char>>) -> Request {
    if args.contains("--onnx"@) {
        Request::Export { dir: dir_of(pos) }
    } else {
        Request::Refuse { line: "error: export requires --onnx (the only supported format)\n"@ }
    }
}

/// What the arguments ask for: `--version` comes first, then the first argument
/// that is no flag decides.
pub open spec fn request_of(args: Seq<Seq<char>>) -> Request {
    if args.contains("--version"@) {
        Request::Version
    } else if words(args).len() == 0 {
        Request::Refuse {
            line: "usage: nexis-ml [--version] <env|new|train|export> [dir]\n"@,
        }
    } else {
        let cmd = words(args)[0];
        let pos = after_first(words(args), cmd);
        if cmd == "env"@ {
            Request::Env
        } else if cmd == "new"@ {
            new_request(pos)
        } else if cmd == "train"@ {
            Request::Train { dir: dir_of(pos) }
        } else if cmd == "export"@ {
            export_request(args, pos)
        } else {
            Request::Refuse { line: "error: unknown command: "@ + cmd + "\n"@ }
        }
    }
}

/// Whether a list of arguments holds a word.
fn has(args: &Vec<String>, word: &str) -> (r: bool)
    ensures
        r == text::texts(args@).contains(word@),
{
    match text::position(args, word) {
        Some(i) => {
            assert(text::texts(args@)[i as int] == word@);
            true
        },
        None => {
            proof {
                let all = text::texts(args@);
                if all.contains(word@) {
                    let k = choose|k: int| 0 <= k < all.len() && all[k] == word@;
                    assert(args@[k]@ == word@);
                }
            }
            false
        },
    }
}

fn first_or(pos: &Vec<String>, other: &str) -> (r: String)
    ensures
        r@ == if pos@.len() > 0 {
            text::texts(pos@)[0]
        } else {
            other@
        },
{
    if pos.len() > 0 {
        pos[0].clone()
    } else {
        other.to_string()
    }
}

/// What `new` asks for.
pub fn cmd_new(pos: &Vec<String>) -> (r: Command)
    ensures
        r.request() == new_request(text::texts(pos@)),
{
    let name = first_or(pos, "tabular");
    let dir = if pos.len() > 1 {
        pos[1].clone()
    } else {
        name.clone()
    };
    if text::same(name.as_str(), "tabular") {
        Command::New { template: Template::Tabular, dir }
    } else if text::same(name.as_str(), "image") {
        Command::New { template: Template::Image, dir }
    } else {
        let mut line = "error: unknown template '".to_string();
        line.append(name.as_str());
        line.append("' (this engine supports: tabular, image)\n");
        Command::Refuse { line }
    }
}

/// What `train` asks for.
pub fn cmd_train(pos: &Vec<String>) -> (r: Command)
    ensures
        r.request() == (Request::Train { dir: dir_of(text::texts(pos@)) }),
{
    Command::Train { dir: first_or(pos, ".") }
}

/// What `export` asks for.
pub fn cmd_export(args: &Vec<String>, pos: &Vec<String>) -> (r: Command)
    ensures
        r.request() == export_request(text::texts(args@), text::texts(pos@)),
{
    if has(args, "--onnx") {
        Command::Export { dir: first_or(pos, ".") }
    } else {
        Command::Refuse {
            line: "error: export requires --onnx (the only supported format)\n".to_string(),
        }
    }
}

/// Whether the arguments turn protocol mode on.
pub fn protocol_flag(args: &Vec<String>) -> (r: bool)
    ensures
        r == text::texts(args@).contains("--nexis-protocol"@),
{
    has(args, "--nexis-protocol")
}

/// What the arguments ask for.
pub fn run(args: &Vec<String>) -> (r: Command)
    ensures
        r.request() == request_of(text::texts(args@)),
{
    if has(args, "--version") {
        return Command::Version;
    }
    let list = plain_words(args);
    if list.len() == 0 {
        return Command::Refuse {
            line: "usage: nexis-ml [--version] <env|new|train|export> [dir]\n".to_string(),
        };
    }
    let cmd = list[0].as_str();
    let pos = positionals(args, cmd);
    if text::same(cmd, "env") {
        Command::Env
    } else if text::same(cmd, "new") {
        cmd_new(&pos)
    } else if text::same(cmd, "train") {
        cmd_train(&pos)
    } else if text::same(cmd, "export") {
        cmd_export(args, &pos)
    } else {
        let mut line = "error: unknown command: ".to_string();
        line.append(cmd);
        line.append("\n");
        Command::Refuse { line }
    }
}

/// The answer to `--version`.
pub fn version_line() -> (r: String)
    ensures
        r@ == "nexis-ml "@ + VERSION@ + "\n"@,
{
    let mut r = "nexis-ml ".to_string();
    r.append(VERSION);
    r.append("\n");
    r
}

/// What `env` reports.
pub open spec fn env_report(gpu: bool) -> json::Json {
    json::Json::Object(
        map![
            "engine"@ => json::Json::Text("nexis-ml-rs"@),
            "nexisMl"@ => json::Json::Text(VERSION@),
            "python"@ => json::Json::Null,
            "torch"@ => json::Json::Null,
            "cudaAvailable"@ => json::Json::Bool(false),
            "gpuName"@ => json::Json::Null,
            "backend"@ => json::Json::Text(
                if gpu {
                    "wgpu"@
                } else {
                    "cpu"@
                },
            ),
        ],
    )
}

/// What `env` reports, given whether there is a GPU.
pub fn env_value(gpu: bool) -> (r: serde_json::Value)
    ensures
        json::json_model(r) == env_report(gpu),
{
    let backend = if gpu {
        "wgpu"
    } else {
        "cpu"
    };
    let mut m = json::members();
    json::put(&mut m, "engine", json::text("nexis-ml-rs"));
    json::put(&mut m, "nexisMl", json::text(VERSION));
    json::put(&mut m, "python", json::null());
    json::put(&mut m, "torch", json::null());
    json::put(&mut m, "cudaAvailable", json::boolean(false));
    json::put(&mut m, "gpuName", json::null());
    json::put(&mut m, "backend", json::text(backend));
    json::object(m)
}

/// The answer to `env`: the report on one line.
pub fn cmd_env(gpu: bool) -> (r: String)
    ensures
        r@ == match json::json_text(env_report(gpu)) {
            Some(text) => text + "\n"@,
            None => "\n"@,
        },
{
    let value = env_value(gpu);
    match json::one_line(&value) {
        Some(text) => {
            let mut line = text;
            line.append("\n");
            line
        },
        None => "\n".to_string(),
    }
}

/// The answer to `new`: in protocol mode a short one that keeps clear of the
/// standard output, otherwise one that says how to go on.
pub fn created(template: Template, dir: &str, emitter: &Emitter) -> (r: (Stream, String))
    ensures
        r.0 == emitter.people_stream(),
        r.1@ == "created "@ + template.word() + " project at "@ + dir@ + if emitter.is_enabled() {
            "\n"@
        } else {
            "\nnext:\n  cd "@ + dir@ + "\n  nexis-ml train\n"@
        },
{
    let mut msg = "created ".to_string();
    msg.append(template.name());
    msg.append(" project at ");
    msg.append(dir);
    let ghost first = msg@;
    if emitter.enabled() {
        emitter.console(msg.as_str())
    } else {
        msg.append("\nnext:\n  cd ");
        msg.append(dir);
        msg.append("\n  nexis-ml train\n");
        assert(msg@ =~= first + ("\nnext:\n  cd "@ + dir@ + "\n  nexis-ml train\n"@));
        (Stream::Stdout, msg)
    }
}

/// A flag may stand anywhere among the arguments: the words stay the same.
pub proof fn law_flags_stand_anywhere(
    before: Seq<Seq<char>>,
    flag: Seq<char>,
    after: Seq<Seq<char>>,
)
    requires
        is_flag(flag),
    ensures
        words(before.push(flag) + after) == words(before + after),
    decreases after.len(),
{
    if after.len() == 0 {
        assert(before.push(flag) + after =~= before.push(flag));
        assert(before + after =~= before);
        assert(before.push(flag).drop_last() =~= before);
    } else {
        law_flags_stand_anywhere(before, flag, after.drop_last());
        assert((before.push(flag) + after).drop_last() =~= before.push(flag) + after.drop_last());
        assert((before + after).drop_last() =~= before + after.drop_last());
    }
}

/// A flag is what begins with two dashes.
pub proof fn law_flags_begin_with_dashes(rest: Seq<char>, arg: Seq<char>)
    ensures
        is_flag("--"@ + rest),
        is_flag(arg) ==> arg == "--"@ + arg.skip(2),
{
    reveal_strlit("--");
    assert(is_flag(arg) ==> arg =~= "--"@ + arg.skip(2));
}

/// The words are all arguments that are no flags, in order.
pub proof fn law_words_are_the_others(args: Seq<Seq<char>>) -> (kept: Seq<int>)
    ensures
        forall|i: int, j: int| 0 <= i < j < kept.len() ==> #[trigger] kept[i] < #[trigger] kept[j],
        forall|i: int| #[trigger] kept.contains(i) <==> 0 <= i < args.len() && !is_flag(args[i]),
        words(args).len() == kept.len(),
        forall|k: int| 0 <= k < kept.len() ==> #[trigger] words(args)[k] == args[kept[k]],
    decreases args.len(),
{
    if args.len() == 0 {
        Seq::empty()
    } else {
        let front = args.drop_last();
        let n = front.len() as int;
        let before = law_words_are_the_others(front);
        assert(args[n] == args.last());
        assert forall|k: int| 0 <= k < before.len() implies 0 <= #[trigger] before[k] < n by {
            assert(before.contains(before[k]));
        }
        let kept = if is_flag(args.last()) {
            before
        } else {
            before.push(n)
        };
        assert forall|i: int| #[trigger] kept.contains(i) <==> 0 <= i < args.len() && !is_flag(
            args[i],
        ) by {
            if 0 <= i < n {
                assert(front[i] == args[i]);
            }
            if before.contains(i) {
                let k = choose|k: int| 0 <= k < before.len() && before[k] == i;
                assert(kept[k] == i);
            }
            if !is_flag(args.last()) {
                assert(kept[before.len() as int] == n);
                if kept.contains(i) && i != n {
                    let k = choose|k: int| 0 <= k < kept.len() && kept[k] == i;
                    assert(before[k] == i);
                }
            }
        }
        assert forall|k: int| 0 <= k < kept.len() implies #[trigger] words(args)[k]
            == args[kept[k]] by {
            if k < before.len() {
                assert(words(front)[k] == front[before[k]]);
            }
        }
        kept
    }
}

/// What follows a word is what stands behind its first occurrence.
pub proof fn law_what_follows_a_word(
    before: Seq<Seq<char>>,
    word: Seq<char>,
    after: Seq<Seq<char>>,
)
    requires
        !before.contains(word),
    ensures
        after_first(before + seq![word] + after, word) == after,
        after_first(before, word) == Seq::<Seq<char>>::empty(),
    decreases before.len(),
{
    let all = before + seq![word] + after;
    if before.len() == 0 {
        assert(all[0] == word);
        assert(all.skip(1) =~= after);
    } else {
        assert(before.contains(before[0]));
        assert(all[0] == before[0]);
        let rest = before.skip(1);
        if rest.contains(word) {
            let k = choose|k: int| 0 <= k < rest.len() && rest[k] == word;
            assert(before[k + 1] == word);
        }
        assert(all.skip(1) =~= rest + seq![word] + after);
        law_what_follows_a_word(rest, word, after);
    }
}

proof fn lemma_first_word(args: Seq<Seq<char>>, word: Seq<char>, pos: Seq<Seq<char>>)
    requires
        words(args) == seq![word] + pos,
    ensures
        words(args).len() >= 1,
        words(args)[0] == word,
        after_first(words(args), word) == pos,
{
    let none = Seq::<Seq<char>>::empty();
    law_what_follows_a_word(none, word, pos);
    assert(none + seq![word] + pos =~= seq![word] + pos);
}

proof fn lemma_command_words()
    ensures
        "env"@ != "new"@,
        "env"@ != "train"@,
        "env"@ != "export"@,
        "new"@ != "train"@,
        "new"@ != "export"@,
        "train"@ != "export"@,
        "tabular"@ != "image"@,
{
    reveal_strlit("env");
    reveal_strlit("new");
    reveal_strlit("train");
    reveal_strlit("export");
    reveal_strlit("tabular");
    reveal_strlit("image");
    assert("env"@[0] == 'e' && "new"@[0] == 'n');
    assert("env"@.len() == 3 && "new"@.len() == 3 && "train"@.len() == 5 && "export"@.len() == 6);
    assert("tabular"@.len() == 7 && "image"@.len() == 5);
}

/// What the arguments ask for, whatever flags stand among them: the first word is
/// the command, and the words after it say what it works on. The directory is the
/// current one where none is named, and a new project is a table in a directory of
/// that name where nothing is named.
pub proof fn law_what_arguments_ask_for(
    args: Seq<Seq<char>>,
    word: Seq<char>,
    pos: Seq<Seq<char>>,
)
    requires
        words(args) == seq![word] + pos,
        !args.contains("--version"@),
    ensures
        word == "env"@ ==> request_of(args) == Request::Env,
        word == "train"@ && pos.len() == 0 ==> request_of(args) == (Request::Train { dir: "."@ }),
        word == "train"@ && pos.len() > 0 ==> request_of(args) == (Request::Train { dir: pos[0] }),
        word == "export"@ && args.contains("--onnx"@) && pos.len() == 0 ==> request_of(args) == (
        Request::Export { dir: "."@ }),
        word == "export"@ && args.contains("--onnx"@) && pos.len() > 0 ==> request_of(args) == (
        Request::Export { dir: pos[0] }),
        word == "export"@ && !args.contains("--onnx"@) ==> request_of(args) is Refuse,
        word == "new"@ && pos.len() == 0 ==> request_of(args) == (Request::New {
            template: Template::Tabular,
            dir: "tabular"@,
        }),
        word == "new"@ && pos.len() == 1 && pos[0] == "tabular"@ ==> request_of(args) == (
        Request::New { template: Template::Tabular, dir: "tabular"@ }),
        word == "new"@ && pos.len() == 1 && pos[0] == "image"@ ==> request_of(args) == (
        Request::New { template: Template::Image, dir: "image"@ }),
        word == "new"@ && pos.len() >= 2 && pos[0] == "tabular"@ ==> request_of(args) == (
        Request::New { template: Template::Tabular, dir: pos[1] }),
        word == "new"@ && pos.len() >= 2 && pos[0] == "image"@ ==> request_of(args) == (
        Request::New { template: Template::Image, dir: pos[1] }),
        word == "new"@ && pos.len() >= 1 && pos[0] != "tabular"@ && pos[0] != "image"@
            ==> request_of(args) is Refuse,
        word != "env"@ && word != "new"@ && word != "train"@ && word != "export"@ ==> request_of(
            args,
        ) is Refuse,
{
    lemma_first_word(args, word, pos);
    lemma_command_words();
}

/// `--version` goes before everything else, and without a word nothing is asked
/// for.
pub proof fn law_version_goes_first(args: Seq<Seq<char>>)
    ensures
        args.contains("--version"@) <==> request_of(args) == Request::Version,
        !args.contains("--version"@) && words(args).len() == 0 ==> request_of(args) is Refuse,
{
}

/// The report on the machine names the engine and its version, and tells whether
/// the networks run on the GPU.
pub proof fn law_report_tells(gpu: bool)
    ensures
        env_report(gpu) matches json::Json::Object(m) && {
            &&& m["engine"@] == json::Json::Text("nexis-ml-rs"@)
            &&& m["nexisMl"@] == json::Json::Text(VERSION@)
            &&& m["python"@] == json::Json::Null
            &&& m["torch"@] == json::Json::Null
            &&& m["cudaAvailable"@] == json::Json::Bool(false)
            &&& m["gpuName"@] == json::Json::Null
            &&& gpu ==> m["backend"@] == json::Json::Text("wgpu"@)
            &&& !gpu ==> m["backend"@] == json::Json::Text("cpu"@)
        },
{
    reveal_strlit("engine");
    reveal_strlit("nexisMl");
    reveal_strlit("python");
    reveal_strlit("torch");
    reveal_strlit("cudaAvailable");
    reveal_strlit("gpuName");
    reveal_strlit("backend");
    assert("engine"@.len() == 6 && "python"@.len() == 6 && "torch"@.len() == 5);
    assert("nexisMl"@.len() == 7 && "gpuName"@.len() == 7 && "backend"@.len() == 7);
    assert("cudaAvailable"@.len() == 13);
    assert("engine"@[0] == 'e' && "python"@[0] == 'p');
    assert("nexisMl"@[0] == 'n' && "gpuName"@[0] == 'g' && "backend"@[0] == 'b');
}

} // verus!
