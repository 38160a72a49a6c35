//! What the commands print.

use crate::api;
use crate::api::{ContextInfo, ContextView};
use crate::json;
use crate::json::{Json, JsonView};
use crate::runtime;
use crate::runtime::{health_word, MountState};
use crate::text;
use crate::text::{copy_text, decimal_text};
use crate::worker;
use vstd::prelude::*;
use vstd::string::*;

verus! {

// ── mounts ───────────────────────────────────────────────────────────────────

/// Texts as a JSON array.
pub open spec fn text_array(s: Seq<Seq<char>>) -> JsonView {
    JsonView::Array(Seq::new(s.len(), |i: int| JsonView::Text(s[i])))
}

/// A JSON value, or null where there is none.
pub open spec fn or_null(v: Option<JsonView>) -> JsonView {
    match v {
        Some(v) => v,
        None => JsonView::Null,
    }
}

fn text_values(v: &Vec<String>) -> (r: Json)
    ensures
        r@ == text_array(api::texts(v@)),
{
    let mut out: Vec<Json> = Vec::new();
    let mut i: usize = 0;
    while i < v.len()
        invariant
            i <= v@.len(),
            out@.len() == i,
            forall|j: int| 0 <= j < i ==> json::json_view(#[trigger] out@[j]) == JsonView::Text(v@[j]@),
        decreases v@.len() - i,
    {
        out.push(Json::text(v[i].as_str()));
        i = i + 1;
    }
    proof {
        json::lemma_json_views(out@);
        assert(json::json_views(out@) =~= Seq::new(
            v@.len(),
            |i: int| JsonView::Text(api::texts(v@)[i]),
        ));
    }
    Json::array(out)
}

/// A mount with what there is to see of it.
pub struct Mount {
    pub state: MountState,
    /// Its process runs
    pub alive: bool,
    /// The kernel has it
    pub mounted: bool,
}

impl Mount {
    /// What a machine is told of a mount.
    pub open spec fn entry(&self) -> JsonView {
        let s = self.state;
        JsonView::Object(
            map![
                "mountpoint"@ => JsonView::Text(s.mountpoint@),
                "server"@ => JsonView::Text(s.server@),
                "pid"@ => JsonView::Number(json::number_from(s.pid as u64)),
                "alive"@ => JsonView::Bool(self.alive),
                "mounted"@ => JsonView::Bool(self.mounted),
                "status"@ => JsonView::Text(runtime::health(self.alive, self.mounted)),
                "startedAt"@ => JsonView::Text(s.started_at@),
                "contexts"@ => match worker::option_texts(s.contexts) {
                    Some(c) => text_array(c),
                    None => JsonView::Null,
                },
                "logFile"@ => match s.log_file {
                    Some(f) => JsonView::Text(f@),
                    None => JsonView::Null,
                },
            ],
        )
    }

    /// Tells a machine of a mount.
    pub fn to_json(&self) -> (r: Json)
        ensures
            r@ == self.entry(),
    {
        let s = &self.state;
        let contexts = match &s.contexts {
            Some(c) => text_values(c),
            None => Json::Null,
        };
        let log_file = match &s.log_file {
            Some(f) => Json::text(f.as_str()),
            None => Json::Null,
        };
        Json::object().with("mountpoint", Json::text(s.mountpoint.as_str())).with(
            "server",
            Json::text(s.server.as_str()),
        ).with("pid", Json::uint(s.pid as u64)).with("alive", Json::Bool(self.alive)).with(
            "mounted",
            Json::Bool(self.mounted),
        ).with("status", Json::text(health_word(self.alive, self.mounted))).with(
            "startedAt",
            Json::text(s.started_at.as_str()),
        ).with("contexts", contexts).with("logFile", log_file)
    }
}

/// What a machine is told of all mounts.
pub open spec fn entries(s: Seq<Mount>) -> JsonView {
    JsonView::Array(Seq::new(s.len(), |i: int| s[i].entry()))
}

/// Tells a machine of all mounts.
pub fn status_report(mounts: &Vec<Mount>) -> (r: Json)
    ensures
        r@ == entries(mounts@),
{
    let mut out: Vec<Json> = Vec::new();
    let mut i: usize = 0;
    while i < mounts.len()
        invariant
            i <= mounts@.len(),
            out@.len() == i,
            forall|j: int| 0 <= j < i ==> json::json_view(#[trigger] out@[j]) == mounts@[j].entry(),
        decreases mounts@.len() - i,
    {
        out.push(mounts[i].to_json());
        i = i + 1;
    }
    proof {
        json::lemma_json_views(out@);
        assert(json::json_views(out@) =~= Seq::new(mounts@.len(), |i: int| mounts@[i].entry()));
    }
    Json::array(out)
}

/// The lines for all mounts, or the line that there are none.
pub open spec fn status_text(s: Seq<Mount>) -> Seq<Seq<char>> {
    if s.len() == 0 {
        seq!["no canvas mounts"@]
    } else {
        Seq::new(s.len(), |i: int| s[i].state.line(s[i].alive, s[i].mounted))
    }
}

/// Makes the lines for all mounts.
pub fn status_lines(mounts: &Vec<Mount>) -> (r: Vec<String>)
    ensures
        api::texts(r@) == status_text(mounts@),
{
    let mut out: Vec<String> = Vec::new();
    if mounts.len() == 0 {
        out.push(copy_text("no canvas mounts"));
        assert(api::texts(out@) =~= status_text(mounts@));
        return out;
    }
    let mut i: usize = 0;
    while i < mounts.len()
        invariant
            i <= mounts@.len(),
            out@.len() == i,
            forall|j: int|
                0 <= j < i ==> (#[trigger] out@[j])@ == mounts@[j].state.line(
                    mounts@[j].alive,
                    mounts@[j].mounted,
                ),
        decreases mounts@.len() - i,
    {
        let m = &mounts[i];
        out.push(m.state.report(m.alive, m.mounted));
        i = i + 1;
    }
    assert(api::texts(out@) =~= status_text(mounts@));
    out
}

// ── servers ──────────────────────────────────────────────────────────────────

/// What a server said of itself, and how long that took.
pub struct Pong {
    pub server: String,
    pub payload: Json,
    pub millis: u64,
    /// Where the endpoint comes from
    pub source: String,
}

fn said(payload: &Json, key: &str, other: &str) -> (r: String)
    ensures
        r@ == api::text_or(payload@, key@, other@),
{
    match payload.get_str(key) {
        Some(s) => copy_text(s.as_str()),
        None => copy_text(other),
    }
}

fn member_or_null(payload: &Json, key: &str) -> (r: Json)
    ensures
        r@ == or_null(payload@.member(key@)),
{
    match payload.get(key) {
        Some(v) => v.copy(),
        None => Json::Null,
    }
}

impl Pong {
    /// What is said before a mount.
    pub open spec fn greeting(&self) -> Seq<char> {
        "server "@ + self.server@ + " (v"@ + api::text_or(self.payload@, "version"@, "?"@) + ", "@
            + text::decimal(self.millis as nat) + " ms, auth via "@ + self.source@ + ")"@
    }

    /// Says what server a mount is made for.
    pub fn greet(&self) -> (r: String)
        ensures
            r@ == self.greeting(),
    {
        let mut out = copy_text("server ");
        out.append(self.server.as_str());
        out.append(" (v");
        out.append(said(&self.payload, "version", "?").as_str());
        out.append(", ");
        out.append(decimal_text(self.millis).as_str());
        out.append(" ms, auth via ");
        out.append(self.source.as_str());
        out.append(")");
        out
    }

    /// What is said of a server that answered.
    pub open spec fn line(&self) -> Seq<char> {
        self.server@ + ": "@ + api::text_or(self.payload@, "appName"@, "canvas-server"@) + " v"@
            + api::text_or(self.payload@, "version"@, "?"@) + " ("@ + text::decimal(
            self.millis as nat,
        ) + " ms)"@
    }

    /// Says what server answered.
    pub fn report(&self) -> (r: String)
        ensures
            r@ == self.line(),
    {
        let mut out = copy_text(self.server.as_str());
        out.append(": ");
        out.append(said(&self.payload, "appName", "canvas-server").as_str());
        out.append(" v");
        out.append(said(&self.payload, "version", "?").as_str());
        out.append(" (");
        out.append(decimal_text(self.millis).as_str());
        out.append(" ms)");
        out
    }

    /// What is said of the credential: how many contexts it gives access to, or why it gives none.
    pub open spec fn access_line(&self, contexts: Result<u64, String>) -> Seq<char> {
        match contexts {
            Ok(n) => "auth ok ("@ + self.source@ + ", "@ + text::decimal(n as nat)
                + " contexts accessible)"@,
            Err(e) => "auth FAILED ("@ + self.source@ + "): "@ + e@,
        }
    }

    /// Says whether the credential is accepted.
    pub fn access(&self, contexts: &Result<u64, String>) -> (r: String)
        ensures
            r@ == self.access_line(*contexts),
    {
        match contexts {
            Ok(n) => {
                let mut out = copy_text("auth ok (");
                out.append(self.source.as_str());
                out.append(", ");
                out.append(decimal_text(*n).as_str());
                out.append(" contexts accessible)");
                out
            },
            Err(e) => {
                let mut out = copy_text("auth FAILED (");
                out.append(self.source.as_str());
                out.append("): ");
                out.append(e.as_str());
                out
            },
        }
    }

    /// What a machine is told of a server that answered.
    pub open spec fn entry(&self, contexts: Result<u64, String>) -> JsonView {
        JsonView::Object(
            map![
                "server"@ => JsonView::Text(self.server@),
                "reachable"@ => JsonView::Bool(true),
                "rttMs"@ => JsonView::Number(json::number_from(self.millis)),
                "version"@ => or_null(self.payload@.member("version"@)),
                "appName"@ => or_null(self.payload@.member("appName"@)),
                "auth"@ => JsonView::Bool(contexts is Ok),
                "contexts"@ => match contexts {
                    Ok(n) => JsonView::Number(json::number_from(n)),
                    Err(_) => JsonView::Null,
                },
                "source"@ => JsonView::Text(self.source@),
            ],
        )
    }

    /// Tells a machine of a server that answered.
    pub fn to_json(&self, contexts: &Result<u64, String>) -> (r: Json)
        ensures
            r@ == self.entry(*contexts),
    {
        let (auth, count) = match contexts {
            Ok(n) => (true, Json::uint(*n)),
            Err(_) => (false, Json::Null),
        };
        Json::object().with("server", Json::text(self.server.as_str())).with(
            "reachable",
            Json::Bool(true),
        ).with("rttMs", Json::uint(self.millis)).with(
            "version",
            member_or_null(&self.payload, "version"),
        ).with("appName", member_or_null(&self.payload, "appName")).with(
            "auth",
            Json::Bool(auth),
        ).with("contexts", count).with("source", Json::text(self.source.as_str()))
    }
}

// ── contexts ─────────────────────────────────────────────────────────────────

/// What a machine is told of contexts: all that the server said of them.
pub open spec fn raw_contexts(s: Seq<ContextView>) -> JsonView {
    JsonView::Array(Seq::new(s.len(), |i: int| s[i].raw))
}

/// Tells a machine of contexts.
pub fn contexts_report(contexts: &Vec<ContextInfo>) -> (r: Json)
    ensures
        r@ == raw_contexts(api::context_views(contexts@)),
{
    let mut out: Vec<Json> = Vec::new();
    let mut i: usize = 0;
    while i < contexts.len()
        invariant
            i <= contexts@.len(),
            out@.len() == i,
            forall|j: int| 0 <= j < i ==> json::json_view(#[trigger] out@[j]) == contexts@[j].raw@,
        decreases contexts@.len() - i,
    {
        out.push(contexts[i].raw.copy());
        i = i + 1;
    }
    proof {
        json::lemma_json_views(out@);
        assert(json::json_views(out@) =~= Seq::new(
            contexts@.len(),
            |i: int| api::context_views(contexts@)[i].raw,
        ));
    }
    Json::array(out)
}

/// Says what a context is called and where it stands.
pub fn context_line(context: &ContextInfo) -> (r: String)
    ensures
        r@ == context@.id + "\t"@ + context@.url,
{
    let mut out = copy_text(context.id.as_str());
    out.append("\t");
    out.append(context.url.as_str());
    out
}

/// The contexts that were asked for: where none was named, that is no list.
pub fn asked_contexts(contexts: Vec<String>) -> (r: Option<Vec<String>>)
    ensures
        r == (if contexts@.len() == 0 {
            None
        } else {
            Some(contexts)
        }),
{
    if contexts.len() == 0 {
        None
    } else {
        Some(contexts)
    }
}

} // verus!
