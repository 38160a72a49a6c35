//! What the server tells of changes.

use crate::api;
use crate::json;
use crate::json::{Json, JsonView};
use crate::state::Tree;
use crate::strmap;
use crate::strmap::StrMap;
use crate::text;
use crate::text::{copy_text, has_prefix, same_text};
use crate::worker::{Job, JobView};
use vstd::prelude::*;
use vstd::string::*;

verus! {

/// The channel of a context.
pub open spec fn context_channel(id: Seq<char>) -> Seq<char> {
    "context:"@ + id
}

/// The channel of a workspace.
pub open spec fn workspace_channel(id: Seq<char>) -> Seq<char> {
    "workspace:"@ + id
}

/// What is sent to subscribe to a channel.
pub open spec fn subscription(channel: Seq<char>) -> JsonView {
    JsonView::Object(Map::empty().insert("channel"@, JsonView::Text(channel)))
}

/// What has to be sent so that a channel is subscribed to: nothing without a connection, and
/// nothing where the server confirmed it.
pub open spec fn asked(
    connected: bool,
    confirmed: Set<Seq<char>>,
    channel: Seq<char>,
) -> Option<JsonView> {
    if connected && !confirmed.contains(channel) {
        Some(subscription(channel))
    } else {
        None
    }
}

/// Which channels are subscribed to. A subscription counts only when the server confirmed it, so
/// that one that was refused is asked for again.
pub struct Subscriber {
    connected: bool,
    confirmed: StrMap<bool>,
}

impl Subscriber {
    /// Whether there is a connection.
    pub closed spec fn spec_connected(&self) -> bool {
        self.connected
    }

    /// The channels whose subscription was confirmed.
    pub closed spec fn channels(&self) -> Set<Seq<char>> {
        self.confirmed@.dom()
    }

    /// No connection.
    pub fn new() -> (r: Self)
        ensures
            !r.spec_connected(),
            r.channels() == Set::<Seq<char>>::empty(),
    {
        let r = Subscriber { connected: false, confirmed: StrMap::new() };
        assert(r.channels() =~= Set::<Seq<char>>::empty());
        r
    }

    /// There is a new connection: nothing is subscribed to any more.
    pub fn connected(&mut self)
        ensures
            final(self).spec_connected(),
            final(self).channels() == Set::<Seq<char>>::empty(),
    {
        self.connected = true;
        self.confirmed = StrMap::new();
        assert(self.channels() =~= Set::<Seq<char>>::empty());
    }

    /// The server confirmed a subscription.
    pub fn confirm(&mut self, channel: &str)
        ensures
            final(self).channels() == old(self).channels().insert(channel@),
            final(self).spec_connected() == old(self).spec_connected(),
    {
        self.confirmed.insert(copy_text(channel), true);
        assert(self.channels() =~= old(self).channels().insert(channel@));
    }

    fn subscribe_raw(&self, channel: &str) -> (r: Option<Json>)
        ensures
            asked(self.spec_connected(), self.channels(), channel@) == (match r {
                Some(m) => Some(m@),
                None => None,
            }),
    {
        if self.confirmed.contains_key(channel) || !self.connected {
            return None;
        }
        let m = Json::object().with("channel", Json::text(channel));
        Some(m)
    }

    /// What has to be sent so that a context is subscribed to. It can be asked at every refresh.
    pub fn subscribe(&self, ctx_id: &str) -> (r: Option<Json>)
        ensures
            asked(self.spec_connected(), self.channels(), context_channel(ctx_id@)) == (match r {
                Some(m) => Some(m@),
                None => None,
            }),
    {
        let mut channel = copy_text("context:");
        channel.append(ctx_id);
        self.subscribe_raw(channel.as_str())
    }

    /// What has to be sent so that a workspace is subscribed to.
    pub fn subscribe_workspace(&self, ws_id: &str) -> (r: Option<Json>)
        ensures
            asked(self.spec_connected(), self.channels(), workspace_channel(ws_id@)) == (match r {
                Some(m) => Some(m@),
                None => None,
            }),
    {
        let mut channel = copy_text("workspace:");
        channel.append(ws_id);
        self.subscribe_raw(channel.as_str())
    }
}

impl Default for Subscriber {
    fn default() -> (r: Self)
        ensures
            !r.spec_connected(),
            r.channels() == Set::<Seq<char>>::empty(),
    {
        Subscriber::new()
    }
}

/// The channel that an event names.
pub open spec fn channel_in(values: Seq<JsonView>) -> Option<Seq<char>> {
    if values.len() > 0 {
        values[0].member_text("channel"@)
    } else {
        None
    }
}

/// The context that an event names.
pub open spec fn context_id_in(values: Seq<JsonView>) -> Option<Seq<char>> {
    if values.len() > 0 {
        match values[0].member_text("contextId"@) {
            Some(id) => Some(id),
            None => values[0].member_text("id"@),
        }
    } else {
        None
    }
}

/// Whether a failure that the server tells of passes by itself.
pub open spec fn is_retryable(values: Seq<JsonView>) -> bool {
    if values.len() > 0 {
        match values[0].member("retryable"@) {
            Some(v) => v.truth() == Some(true),
            None => false,
        }
    } else {
        false
    }
}

/// What a failure that the server tells of is reported as, or else how it was sent.
pub open spec fn failure_text(values: Seq<JsonView>, raw: Seq<char>) -> Seq<char> {
    if values.len() > 0 {
        match values[0].member_text("message"@) {
            Some(m) => m,
            None => raw,
        }
    } else {
        raw
    }
}

/// Reads the channel that an event names.
pub fn channel_from_payload(values: &Vec<Json>) -> (r: Option<String>)
    ensures
        api::option_text(r) == channel_in(json::json_views(values@)),
{
    proof {
        json::lemma_json_views(values@);
    }
    if values.len() == 0 {
        return None;
    }
    match values[0].get_str("channel") {
        Some(c) => Some(copy_text(c.as_str())),
        None => None,
    }
}

/// Reads the context that an event names.
pub fn context_id_of(values: &Vec<Json>) -> (r: Option<String>)
    ensures
        api::option_text(r) == context_id_in(json::json_views(values@)),
{
    proof {
        json::lemma_json_views(values@);
    }
    if values.len() == 0 {
        return None;
    }
    match values[0].get_str("contextId") {
        Some(c) => Some(copy_text(c.as_str())),
        None => match values[0].get_str("id") {
            Some(c) => Some(copy_text(c.as_str())),
            None => None,
        },
    }
}

/// Reads a failure that the server tells of: whether it passes by itself, and what is reported.
pub fn failure_of(values: &Vec<Json>, raw: &str) -> (r: (bool, String))
    ensures
        r.0 == is_retryable(json::json_views(values@)),
        r.1@ == failure_text(json::json_views(values@), raw@),
{
    proof {
        json::lemma_json_views(values@);
    }
    if values.len() == 0 {
        return (false, copy_text(raw));
    }
    let retryable = match values[0].get("retryable") {
        Some(v) => match v.as_bool() {
            Some(b) => b,
            None => false,
        },
        None => false,
    };
    let message = match values[0].get_str("message") {
        Some(m) => copy_text(m.as_str()),
        None => copy_text(raw),
    };
    (retryable, message)
}

/// Whether an event changes what contexts show.
pub open spec fn concerns_contexts(name: Seq<char>) -> bool {
    text::starts_with(name, "document."@) || name == "context.url.set"@ || name
        == "context.updated"@ || name == "context.created"@ || name == "context.deleted"@
}

/// Whether an event changes what the trees of a workspace show.
pub open spec fn concerns_trees(name: Seq<char>) -> bool {
    text::starts_with(name, "tree."@) || text::starts_with(name, "document."@)
}

/// What an event asks for. The trees of a workspace are refreshed as a whole; a context by
/// itself, where the event names it and it did not come or go.
pub open spec fn job_of(workspace: bool, name: Seq<char>, values: Seq<JsonView>) -> Option<JobView> {
    if workspace {
        if concerns_trees(name) {
            Some(JobView::All)
        } else {
            None
        }
    } else if !concerns_contexts(name) {
        None
    } else if name == "context.created"@ || name == "context.deleted"@ {
        Some(JobView::All)
    } else {
        match context_id_in(values) {
            Some(id) => Some(JobView::Context(id)),
            None => Some(JobView::All),
        }
    }
}

/// Works out what an event asks for.
pub fn job_for(workspace: bool, name: &str, values: &Vec<Json>) -> (r: Option<Job>)
    ensures
        (match r {
            Some(j) => job_of(workspace, name@, json::json_views(values@)) == Some(j@),
            None => job_of(workspace, name@, json::json_views(values@)) is None,
        }),
{
    if workspace {
        if has_prefix(name, "tree.") || has_prefix(name, "document.") {
            return Some(Job::RefreshAll);
        }
        return None;
    }
    let came_or_went = same_text(name, "context.created") || same_text(name, "context.deleted");
    let relevant = has_prefix(name, "document.") || same_text(name, "context.url.set")
        || same_text(name, "context.updated") || came_or_went;
    if !relevant {
        return None;
    }
    if came_or_went {
        return Some(Job::RefreshAll);
    }
    match context_id_of(values) {
        Some(id) => Some(Job::RefreshContext(id)),
        None => Some(Job::RefreshAll),
    }
}

/// What is sent on a new connection: a subscription to the workspace, or to each context.
pub open spec fn greetings(t: crate::model::TreeView) -> Seq<JsonView> {
    match t.layout {
        crate::model::LayoutView::Workspace { id, .. } => seq![
            subscription(workspace_channel(id)),
        ],
        _ => {
            let ids = strmap::ordered(t.contexts.dom());
            Seq::new(ids.len(), |i: int| subscription(context_channel(ids[i])))
        },
    }
}

/// Makes what is sent on a new connection.
pub fn greet(subscriber: &mut Subscriber, tree: &Tree) -> (r: Vec<Json>)
    ensures
        final(subscriber).spec_connected(),
        final(subscriber).channels() == Set::<Seq<char>>::empty(),
        json::json_views(r@) == greetings(tree@),
{
    subscriber.connected();
    let mut out: Vec<Json> = Vec::new();
    if let Some(id) = tree.ws_id() {
        if let Some(m) = subscriber.subscribe_workspace(id.as_str()) {
            out.push(m);
        }
        proof {
            json::lemma_json_views(out@);
            assert(json::json_views(out@) =~= greetings(tree@));
        }
        return out;
    }
    let ids = tree.context_ids();
    let ghost all = api::texts(ids@);
    let n = ids.len();
    let mut i: usize = 0;
    while i < n
        invariant
            n == ids@.len(),
            i <= n,
            all == api::texts(ids@),
            subscriber.spec_connected(),
            subscriber.channels() == Set::<Seq<char>>::empty(),
            out@.len() == i,
            forall|j: int|
                0 <= j < i ==> json::json_view(#[trigger] out@[j]) == subscription(
                    context_channel(all[j]),
                ),
        decreases n - i,
    {
        if let Some(m) = subscriber.subscribe(ids[i].as_str()) {
            out.push(m);
        }
        i = i + 1;
    }
    proof {
        json::lemma_json_views(out@);
        assert(json::json_views(out@) =~= greetings(tree@));
    }
    out
}

/// The wait before the first connection is tried again, in seconds.
pub const FIRST_DELAY: u64 = 1;

/// The longest wait before a connection is tried again, in seconds.
pub const MAX_DELAY: u64 = 30;

/// The wait after one that was not enough.
pub open spec fn delay_after(secs: u64) -> u64 {
    if 2 * secs < MAX_DELAY {
        (2 * secs) as u64
    } else {
        MAX_DELAY
    }
}

/// The wait after one that was not enough: twice as long, up to a limit.
pub fn next_delay(secs: u64) -> (r: u64)
    ensures
        r == delay_after(secs),
        r == (if 2 * secs < MAX_DELAY {
            (2 * secs) as u64
        } else {
            MAX_DELAY
        }),
{
    if secs < MAX_DELAY && 2 * secs < MAX_DELAY {
        2 * secs
    } else {
        MAX_DELAY
    }
}

// ── laws ─────────────────────────────────────────────────────────────────────

/// A channel is asked for until the server confirms it, whatever else it confirms, and again on a
/// new connection.
pub proof fn law_asked_until_confirmed(
    confirmed: Set<Seq<char>>,
    channel: Seq<char>,
    other: Seq<char>,
)
    ensures
        asked(true, confirmed.insert(channel), channel) is None,
        other != channel ==> asked(true, confirmed.insert(other), channel) == asked(
            true,
            confirmed,
            channel,
        ),
        asked(true, Set::empty(), channel) == Some(subscription(channel)),
{
}

/// No two contexts and workspaces share a channel: what is confirmed for one is not taken for
/// another.
pub proof fn law_channels_differ(a: Seq<char>, b: Seq<char>)
    ensures
        context_channel(a) == context_channel(b) ==> a == b,
        workspace_channel(a) == workspace_channel(b) ==> a == b,
        context_channel(a) != workspace_channel(b),
{
    reveal_strlit("context:");
    reveal_strlit("workspace:");
    if context_channel(a) == context_channel(b) {
        assert(context_channel(a).skip(8) =~= a);
        assert(context_channel(b).skip(8) =~= b);
    }
    if workspace_channel(a) == workspace_channel(b) {
        assert(workspace_channel(a).skip(10) =~= a);
        assert(workspace_channel(b).skip(10) =~= b);
    }
    assert(context_channel(a)[0] == 'c');
    assert(workspace_channel(b)[0] == 'w');
}

/// Whether an event names a context: its first value says so under `contextId`, or under `id`
/// where it says nothing under `contextId`.
pub open spec fn names_context(values: Seq<JsonView>, id: Seq<char>) -> bool {
    values.len() > 0 && (values[0].says("contextId"@, id) || (values[0].says_nothing("contextId"@)
        && values[0].says("id"@, id)))
}

/// Whether a job is for the context that an event names, or for all where it names none.
pub open spec fn is_for_named(job: Option<JobView>, values: Seq<JsonView>) -> bool {
    &&& forall|id: Seq<char>| #[trigger]
        names_context(values, id) ==> job == Some(JobView::Context(id))
    &&& (forall|id: Seq<char>| !#[trigger] names_context(values, id)) ==> job == Some(JobView::All)
}

proof fn lemma_context_id_in(values: Seq<JsonView>)
    ensures
        forall|id: Seq<char>| #[trigger]
            names_context(values, id) <==> context_id_in(values) == Some(id),
{
    assert forall|id: Seq<char>| #[trigger]
        names_context(values, id) <==> context_id_in(values) == Some(id) by {
        if values.len() > 0 {
            let v = values[0];
            match v.member_text("contextId"@) {
                Some(c) => {
                    assert(v.says("contextId"@, c));
                },
                None => {
                    assert(v.says_nothing("contextId"@));
                },
            }
        }
    }
}

/// On a mount of contexts, every event on a document asks for a refresh of the context that it
/// names, or of everything where it names none; never for nothing. So do a switch of a context's
/// URL and an update of a context.
pub proof fn law_documents_refresh_their_context(rest: Seq<char>, values: Seq<JsonView>)
    ensures
        is_for_named(job_of(false, "document."@ + rest, values), values),
        is_for_named(job_of(false, "context.url.set"@, values), values),
        is_for_named(job_of(false, "context.updated"@, values), values),
{
    let name = "document."@ + rest;
    assert(name.take("document."@.len() as int) =~= "document."@);
    reveal_strlit("document.");
    reveal_strlit("context.created");
    reveal_strlit("context.deleted");
    reveal_strlit("context.url.set");
    reveal_strlit("context.updated");
    assert(name[0] == 'd' && "context.created"@[0] == 'c' && "context.deleted"@[0] == 'c');
    assert("context.url.set"@.len() == 15 && "context.url.set"@[8] == 'u');
    assert("context.updated"@[8] == 'u' && "context.created"@[8] == 'c' && "context.deleted"@[8]
        == 'd');
    lemma_context_id_in(values);
    match context_id_in(values) {
        Some(id) => {
            assert(names_context(values, id));
        },
        None => {},
    }
}

/// A context that comes or goes asks for a refresh of everything.
pub proof fn law_contexts_that_come_or_go_refresh_all(values: Seq<JsonView>)
    ensures
        job_of(false, "context.created"@, values) == Some(JobView::All),
        job_of(false, "context.deleted"@, values) == Some(JobView::All),
{
}

/// On a mount of a workspace's trees, every event on a tree or a document asks for a refresh of
/// everything.
pub proof fn law_trees_refresh_all(rest: Seq<char>, values: Seq<JsonView>)
    ensures
        job_of(true, "document."@ + rest, values) == Some(JobView::All),
        job_of(true, "tree."@ + rest, values) == Some(JobView::All),
{
    assert(("document."@ + rest).take("document."@.len() as int) =~= "document."@);
    assert(("tree."@ + rest).take("tree."@.len() as int) =~= "tree."@);
}

/// No other event asks for anything.
pub proof fn law_other_events_are_ignored(name: Seq<char>, values: Seq<JsonView>)
    ensures
        job_of(false, name, values) is Some ==> {
            ||| name == "document."@ + name.skip(9)
            ||| name == "context.url.set"@
            ||| name == "context.updated"@
            ||| name == "context.created"@
            ||| name == "context.deleted"@
        },
        job_of(true, name, values) is Some ==> {
            ||| name == "document."@ + name.skip(9)
            ||| name == "tree."@ + name.skip(5)
        },
{
    reveal_strlit("document.");
    reveal_strlit("tree.");
    if text::starts_with(name, "document."@) {
        assert(name =~= name.take(9) + name.skip(9));
    }
    if text::starts_with(name, "tree."@) {
        assert(name =~= name.take(5) + name.skip(5));
    }
}

/// A subscription names its channel and nothing else, and the channel of a context or of a
/// workspace is its kind, a colon and its identifier.
pub proof fn law_subscriptions_name_their_channel(id: Seq<char>)
    ensures
        asked(true, Set::empty(), context_channel(id)) == Some(
            JsonView::Object(map!["channel"@ => JsonView::Text("context:"@ + id)]),
        ),
        asked(true, Set::empty(), workspace_channel(id)) == Some(
            JsonView::Object(map!["channel"@ => JsonView::Text("workspace:"@ + id)]),
        ),
        asked(false, Set::empty(), context_channel(id)) is None,
        asked(false, Set::empty(), workspace_channel(id)) is None,
{
}

/// A new connection subscribes to each context once, and to the workspace where the mount is of
/// one.
pub proof fn law_each_context_is_subscribed_to(t: crate::model::TreeView, id: Seq<char>)
    requires
        t.contexts.dom().finite(),
    ensures
        !(t.layout is Workspace) ==> (t.contexts.contains_key(id) <==> greetings(t).contains(
            JsonView::Object(map!["channel"@ => JsonView::Text("context:"@ + id)]),
        )),
        !(t.layout is Workspace) ==> greetings(t).len() == t.contexts.dom().len(),
        t.layout matches crate::model::LayoutView::Workspace { id: ws, .. } ==> greetings(t) == seq![
            JsonView::Object(map!["channel"@ => JsonView::Text("workspace:"@ + ws)]),
        ],
{
    if !(t.layout is Workspace) {
        let ids = strmap::ordered(t.contexts.dom());
        strmap::lemma_ordered(t.contexts.dom());
        let m = JsonView::Object(map!["channel"@ => JsonView::Text("context:"@ + id)]);
        assert(m == subscription(context_channel(id)));
        if t.contexts.contains_key(id) {
            assert(t.contexts.dom().contains(id));
            assert(ids.contains(id));
            let i = choose|i: int| 0 <= i < ids.len() && ids[i] == id;
            assert(greetings(t)[i] == m);
        }
        if greetings(t).contains(m) {
            let i = choose|i: int| 0 <= i < greetings(t).len() && greetings(t)[i] == m;
            let a = subscription(context_channel(ids[i]));
            assert(a->Object_0["channel"@] == m->Object_0["channel"@]);
            law_channels_differ(ids[i], id);
            assert(ids.contains(ids[i]));
        }
    }
}

/// What a server's word on a subscription says is read from its first value: the channel, the
/// reason of a failure, and whether it is worth another try, which has to be said.
pub proof fn law_words_on_subscriptions(v: JsonView, rest: Seq<JsonView>, raw: Seq<char>)
    ensures
        ({
            let values = seq![v] + rest;
            &&& forall|c: Seq<char>| #[trigger]
                v.says("channel"@, c) ==> channel_in(values) == Some(c)
            &&& v.says_nothing("channel"@) ==> channel_in(values) is None
            &&& forall|m: Seq<char>| #[trigger]
                v.says("message"@, m) ==> failure_text(values, raw) == m
            &&& v.says_nothing("message"@) ==> failure_text(values, raw) == raw
            &&& is_retryable(values) <==> v is Object && v->Object_0.contains_key("retryable"@)
                && v->Object_0["retryable"@] == JsonView::Bool(true)
        }),
        channel_in(Seq::empty()) is None,
        failure_text(Seq::empty(), raw) == raw,
        !is_retryable(Seq::empty()),
{
    let values = seq![v] + rest;
    assert(values[0] == v);
    match v.member_text("channel"@) {
        Some(c) => {
            assert(v.says("channel"@, c));
        },
        None => {},
    }
    match v.member_text("message"@) {
        Some(m) => {
            assert(v.says("message"@, m));
        },
        None => {},
    }
}

/// The first wait is a second; each further one is twice as long, up to half a minute, at which it
/// stays.
pub proof fn law_waits_grow(secs: u64)
    ensures
        FIRST_DELAY == 1,
        secs <= 15 ==> delay_after(secs) == 2 * secs,
        secs >= 15 ==> delay_after(secs) == 30,
{
}

} // verus!
