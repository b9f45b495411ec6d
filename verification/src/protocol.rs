//! Protocol v1: one JSON object per line on the standard output while protocol
//! mode is on; lines for people then go to the standard error.
use vstd::prelude::*;
use vstd::string::StringExecFns;

use crate::json;
use crate::text;

verus! {

pub const PROTOCOL_VERSION: u32 = 1;

pub const ENV_FLAG: &'static str = "NEXIS_ML_PROTOCOL";

/// The output streams of the process.
#[derive(Clone, Copy, Debug, PartialEq, Eq, Structural)]
pub enum Stream {
    Stdout,
    Stderr,
}

/// Decides what goes to which output stream.
pub struct Emitter {
    enabled: bool,
}

/// The line that carries an event.
pub open spec fn event_line(event: json::Json) -> Option<Seq<char>> {
    match json::json_text(event) {
        Some(text) => Some(text + "\n"@),
        None => None,
    }
}

impl Emitter {
    /// Whether protocol mode is on.
    pub closed spec fn is_enabled(&self) -> bool {
        self.enabled
    }

    /// Where lines for people go.
    pub open spec fn people_stream(&self) -> Stream {
        if self.is_enabled() {
            Stream::Stderr
        } else {
            Stream::Stdout
        }
    }

    pub fn new(enabled: bool) -> (r: Self)
        ensures
            r.is_enabled() == enabled,
    {
        Emitter { enabled }
    }

    /// Protocol mode is on when the flag was given, or when the environment
    /// variable `ENV_FLAG` holds `1`.
    pub fn from_env_or_flag(flag: bool, variable: Option<&str>) -> (r: Self)
        ensures
            r.is_enabled() == (flag || (variable is Some && variable->0@ == "1"@)),
    {
        let inherited = match variable {
            Some(value) => text::same(value, "1"),
            None => false,
        };
        Emitter::new(flag || inherited)
    }

    /// Whether protocol mode is on.
    pub fn enabled(&self) -> (r: bool)
        ensures
            r == self.is_enabled(),
    {
        self.enabled
    }

    /// The event itself, so that the caller can also record it, and the line
    /// for the standard output, if there is one to write.
    pub fn emit(&self, event: serde_json::Value) -> (r: (serde_json::Value, Option<String>))
        ensures
            r.0 == event,
            json::maybe_text(r.1) == if self.is_enabled() {
                event_line(json::json_model(event))
            } else {
                None
            },
            r.1 is Some ==> is_one_line(r.1->0@),
    {
        let line = if self.enabled {
            to_line(&event)
        } else {
            None
        };
        (event, line)
    }

    /// Where a line for people goes, and its text: never to the standard output
    /// in protocol mode, so that it cannot come between the events.
    pub fn console(&self, msg: &str) -> (r: (Stream, String))
        ensures
            r.0 == self.people_stream(),
            r.1@ == msg@ + "\n"@,
    {
        let stream = if self.enabled {
            Stream::Stderr
        } else {
            Stream::Stdout
        };
        let mut line = msg.to_string();
        line.append("\n");
        (stream, line)
    }
}

/// A text that ends in a line break and holds no other.
pub open spec fn is_one_line(text: Seq<char>) -> bool {
    &&& text.len() > 0
    &&& text.last() == '\n'
    &&& !text.drop_last().contains('\n')
}

/// The line that carries an event.
pub fn to_line(event: &serde_json::Value) -> (r: Option<String>)
    ensures
        json::maybe_text(r) == event_line(json::json_model(*event)),
        r is Some ==> is_one_line(r->0@),
{
    match json::one_line(event) {
        Some(text) => {
            let ghost body = text@;
            let mut line = text;
            line.append("\n");
            proof {
                reveal_strlit("\n");
                assert(line@.drop_last() =~= body);
            }
            Some(line)
        },
        None => None,
    }
}

/// The line of an event is its JSON text and a line break, and every event that can
/// be written has one.
pub proof fn law_lines_of_events(event: json::Json)
    ensures
        json::json_text(event) matches Some(text) ==> event_line(event) == Some(
            text.push('\n'),
        ),
        json::json_text(event) is None ==> event_line(event) is None,
{
    reveal_strlit("\n");
    if let Some(text) = json::json_text(event) {
        assert(text + "\n"@ =~= text.push('\n'));
    }
}

/// Lines for people go to the standard output, unless events go there.
pub proof fn law_people_stream(emitter: Emitter)
    ensures
        emitter.is_enabled() <==> emitter.people_stream() == Stream::Stderr,
        !emitter.is_enabled() <==> emitter.people_stream() == Stream::Stdout,
{
}

} // verus!
