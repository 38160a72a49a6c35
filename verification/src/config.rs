//! Which server to talk to, and by what right.

use crate::api;
use crate::json;
use crate::json::{parse_json, Json, JsonView};
use crate::strmap;
use crate::strmap::StrMap;
use crate::text::copy_text;
use vstd::prelude::*;
use vstd::string::*;

verus! {

/// A server, and a token that it accepts.
#[derive(Debug)]
pub struct Endpoint {
    pub server: String,
    pub token: String,
    /// Where these came from, for messages
    pub source: String,
    /// The remote that they came from, where it is one
    pub remote: Option<String>,
}

/// What was found outside the command line, as it stands there.
pub struct Surroundings {
    /// The variable CANVAS_SERVER
    pub server: Option<String>,
    /// The variable CANVAS_API_TOKEN
    pub token: Option<String>,
    /// The directory of the command-line client's configuration
    pub config_dir: Option<String>,
    /// The text of its remotes.json, where there is one
    pub remotes: Option<String>,
    /// The text of its cli-session.json, where there is one
    pub session: Option<String>,
}

/// What was found outside the command line, read.
pub struct Settings {
    pub server: Option<String>,
    pub token: Option<String>,
    pub config_dir: Option<String>,
    /// What remotes.json says, where it is JSON
    pub remotes: Option<Json>,
    /// What cli-session.json says, where it is JSON
    pub session: Option<Json>,
}

/// Why no server was found.
#[derive(Debug)]
pub enum ConfigError {
    NoHome,
    NoConfig(String),
    NoRemoteGiven,
    UnknownRemote { name: String, known: String },
    NoUrl(String),
    NoToken(String),
}

/// A server, and a token that it accepts.
pub ghost struct EndpointView {
    pub server: Seq<char>,
    pub token: Seq<char>,
    pub source: Seq<char>,
    pub remote: Option<Seq<char>>,
}

/// What was found outside the command line, read.
pub ghost struct SettingsView {
    pub server: Option<Seq<char>>,
    pub token: Option<Seq<char>>,
    pub config_dir: Option<Seq<char>>,
    pub remotes: Option<JsonView>,
    pub session: Option<JsonView>,
}

/// Why no server was found.
pub ghost enum ConfigErrorView {
    NoHome,
    NoConfig(Seq<char>),
    NoRemoteGiven,
    UnknownRemote { name: Seq<char>, known: Seq<char> },
    NoUrl(Seq<char>),
    NoToken(Seq<char>),
}

/// What a JSON value that may be absent says.
pub open spec fn option_json(j: Option<Json>) -> Option<JsonView> {
    match j {
        Some(j) => Some(j@),
        None => None,
    }
}

/// The characters of a text that may be absent.
pub open spec fn option_str(s: Option<&str>) -> Option<Seq<char>> {
    match s {
        Some(s) => Some(s@),
        None => None,
    }
}

impl View for Endpoint {
    type V = EndpointView;

    open spec fn view(&self) -> EndpointView {
        EndpointView {
            server: self.server@,
            token: self.token@,
            source: self.source@,
            remote: api::option_text(self.remote),
        }
    }
}

impl View for Settings {
    type V = SettingsView;

    open spec fn view(&self) -> SettingsView {
        SettingsView {
            server: api::option_text(self.server),
            token: api::option_text(self.token),
            config_dir: api::option_text(self.config_dir),
            remotes: option_json(self.remotes),
            session: option_json(self.session),
        }
    }
}

impl View for ConfigError {
    type V = ConfigErrorView;

    open spec fn view(&self) -> ConfigErrorView {
        match *self {
            ConfigError::NoHome => ConfigErrorView::NoHome,
            ConfigError::NoConfig(d) => ConfigErrorView::NoConfig(d@),
            ConfigError::NoRemoteGiven => ConfigErrorView::NoRemoteGiven,
            ConfigError::UnknownRemote { name, known } => ConfigErrorView::UnknownRemote {
                name: name@,
                known: known@,
            },
            ConfigError::NoUrl(n) => ConfigErrorView::NoUrl(n@),
            ConfigError::NoToken(n) => ConfigErrorView::NoToken(n@),
        }
    }
}

/// What a text that may be absent says, where it is JSON.
pub open spec fn read_text(s: Option<String>) -> Option<JsonView> {
    match s {
        Some(s) => json::text_json(s@),
        None => None,
    }
}

impl Surroundings {
    /// What these say.
    pub open spec fn settings(&self) -> SettingsView {
        SettingsView {
            server: api::option_text(self.server),
            token: api::option_text(self.token),
            config_dir: api::option_text(self.config_dir),
            remotes: read_text(self.remotes),
            session: read_text(self.session),
        }
    }

    /// Reads what these say. A file that is not JSON is as good as none.
    pub fn read(&self) -> (r: Settings)
        ensures
            r@ == self.settings(),
    {
        Settings {
            server: copy_option(&self.server),
            token: copy_option(&self.token),
            config_dir: copy_option(&self.config_dir),
            remotes: read_json(&self.remotes),
            session: read_json(&self.session),
        }
    }
}

fn copy_option(s: &Option<String>) -> (r: Option<String>)
    ensures
        api::option_text(r) == api::option_text(*s),
{
    match s {
        Some(t) => Some(copy_text(t.as_str())),
        None => None,
    }
}

fn read_json(s: &Option<String>) -> (r: Option<Json>)
    ensures
        option_json(r) == read_text(*s),
{
    match s {
        Some(t) => parse_json(t.as_str()),
        None => None,
    }
}

/// One value, or else another.
pub open spec fn or_else(a: Option<Seq<char>>, b: Option<Seq<char>>) -> Option<Seq<char>> {
    match a {
        Some(_) => a,
        None => b,
    }
}

/// A text that is not empty.
pub open spec fn filled(s: Option<Seq<char>>) -> Option<Seq<char>> {
    match s {
        Some(t) => if t.len() > 0 {
            Some(t)
        } else {
            None
        },
        None => None,
    }
}

/// The token in a part of a remote.
pub open spec fn token_in(remote: JsonView, part: Seq<char>) -> Option<Seq<char>> {
    match remote.member(part) {
        Some(p) => filled(p.member_text("token"@)),
        None => None,
    }
}

/// Texts joined by commas.
pub open spec fn comma_joined(s: Seq<Seq<char>>) -> Seq<char>
    decreases s.len(),
{
    if s.len() == 0 {
        Seq::empty()
    } else if s.len() == 1 {
        s[0]
    } else {
        comma_joined(s.drop_last()) + ", "@ + s.last()
    }
}

/// The names of the members of an object, in order.
pub open spec fn known_names(v: JsonView) -> Seq<char> {
    match v {
        JsonView::Object(m) => comma_joined(strmap::ordered(m.dom())),
        _ => Seq::empty(),
    }
}

/// The remote that is asked for, or else the one that the client is bound to.
pub open spec fn remote_name(flag: Option<Seq<char>>, session: Option<JsonView>) -> Option<
    Seq<char>,
> {
    match flag {
        Some(_) => flag,
        None => match session {
            Some(s) => s.member_text("boundRemote"@),
            None => None,
        },
    }
}

/// The server and the token: those of the command line before those of the environment, before
/// those of a remote.
pub open spec fn resolved(
    server_flag: Option<Seq<char>>,
    token_flag: Option<Seq<char>>,
    remote_flag: Option<Seq<char>>,
    around: SettingsView,
) -> Result<EndpointView, ConfigErrorView> {
    let server = or_else(server_flag, around.server);
    let token = or_else(token_flag, around.token);
    if server is Some && token is Some {
        Ok(
            EndpointView {
                server: server->0,
                token: token->0,
                source: "flags/env"@,
                remote: None,
            },
        )
    } else {
        match around.config_dir {
            None => Err(ConfigErrorView::NoHome),
            Some(dir) => match around.remotes {
                None => Err(ConfigErrorView::NoConfig(dir)),
                Some(remotes) => match remote_name(remote_flag, around.session) {
                    None => Err(ConfigErrorView::NoRemoteGiven),
                    Some(name) => match remotes.member(name) {
                        None => Err(
                            ConfigErrorView::UnknownRemote { name, known: known_names(remotes) },
                        ),
                        Some(remote) => from_remote(server, token, name, remote),
                    },
                },
            },
        }
    }
}

/// The server and the token, as far as they are given, or else those of a remote. The token of a
/// login comes before that of a device.
pub open spec fn from_remote(
    server: Option<Seq<char>>,
    token: Option<Seq<char>>,
    name: Seq<char>,
    remote: JsonView,
) -> Result<EndpointView, ConfigErrorView> {
    match or_else(server, remote.member_text("url"@)) {
        None => Err(ConfigErrorView::NoUrl(name)),
        Some(url) => match or_else(
            token,
            or_else(token_in(remote, "auth"@), token_in(remote, "device"@)),
        ) {
            None => Err(ConfigErrorView::NoToken(name)),
            Some(t) => Ok(
                EndpointView {
                    server: url,
                    token: t,
                    source: "remote "@ + name,
                    remote: Some(name),
                },
            ),
        },
    }
}

fn first_given(a: Option<&str>, b: &Option<String>) -> (r: Option<String>)
    ensures
        api::option_text(r) == or_else(option_str(a), api::option_text(*b)),
{
    match a {
        Some(s) => Some(copy_text(s)),
        None => match b {
            Some(t) => Some(copy_text(t.as_str())),
            None => None,
        },
    }
}

fn find_token(remote: &Json, part: &str) -> (r: Option<String>)
    ensures
        api::option_text(r) == token_in(remote@, part@),
{
    match remote.get(part) {
        Some(p) => match p.get_str("token") {
            Some(t) => if t.as_str().is_empty() {
                None
            } else {
                Some(copy_text(t.as_str()))
            },
            None => None,
        },
        None => None,
    }
}

fn find_remote_name(flag: Option<&str>, session: &Option<Json>) -> (r: Option<String>)
    ensures
        api::option_text(r) == remote_name(option_str(flag), option_json(*session)),
{
    match flag {
        Some(n) => Some(copy_text(n)),
        None => match session {
            Some(s) => match s.get_str("boundRemote") {
                Some(n) => Some(copy_text(n.as_str())),
                None => None,
            },
            None => None,
        },
    }
}

/// Lists the names of the members of an object.
fn list_names(v: &Json) -> (r: String)
    ensures
        r@ == known_names(v@),
{
    let mut out = String::new();
    match v {
        Json::Object(list) => {
            let mut keys: StrMap<bool> = StrMap::new();
            let n = list.len();
            let mut i: usize = 0;
            assert(list@.take(0) =~= Seq::empty());
            assert(keys@.dom() =~= json::members(list@.take(0)).dom());
            while i < n
                invariant
                    n == list@.len(),
                    i <= n,
                    keys@.dom() == json::members(list@.take(i as int)).dom(),
                decreases n - i,
            {
                proof {
                    assert(list@.take(i + 1).drop_last() =~= list@.take(i as int));
                }
                let ghost d = keys@.dom();
                keys.insert(copy_text(list[i].0.as_str()), true);
                proof {
                    assert(keys@.dom() =~= d.insert(list@[i as int].0@));
                    assert(json::members(list@.take(i + 1)).dom() =~= d.insert(
                        list@[i as int].0@,
                    ));
                }
                i = i + 1;
            }
            assert(list@.take(n as int) =~= list@);
            let ghost names = keys.keys();
            let m = keys.len();
            let mut j: usize = 0;
            assert(out@ =~= comma_joined(names.take(0)));
            while j < m
                invariant
                    m == names.len(),
                    j <= m,
                    names == keys.keys(),
                    out@ == comma_joined(names.take(j as int)),
                decreases m - j,
            {
                let ghost o = out@;
                proof {
                    assert(names.take(j + 1).drop_last() =~= names.take(j as int));
                }
                if j > 0 {
                    out.append(", ");
                }
                out.append(keys.key_at(j).as_str());
                proof {
                    if j == 0 {
                        assert(out@ =~= names[0]);
                        assert(names.take(1)[0] == names[0]);
                    }
                }
                j = j + 1;
            }
            assert(names.take(m as int) =~= names);
        },
        _ => {
            assert(out@ =~= Seq::empty());
        },
    }
    out
}

/// Finds the server and the token, by settings that were read.
pub fn resolve_in(
    server_flag: Option<&str>,
    token_flag: Option<&str>,
    remote_flag: Option<&str>,
    around: &Settings,
) -> (r: Result<Endpoint, ConfigError>)
    ensures
        (match r {
            Ok(e) => resolved(
                option_str(server_flag),
                option_str(token_flag),
                option_str(remote_flag),
                around@,
            ) == Ok::<EndpointView, ConfigErrorView>(e@),
            Err(e) => resolved(
                option_str(server_flag),
                option_str(token_flag),
                option_str(remote_flag),
                around@,
            ) == Err::<EndpointView, ConfigErrorView>(e@),
        }),
{
    let server = first_given(server_flag, &around.server);
    let token = first_given(token_flag, &around.token);
    if let (Some(s), Some(t)) = (&server, &token) {
        return Ok(
            Endpoint {
                server: copy_text(s.as_str()),
                token: copy_text(t.as_str()),
                source: copy_text("flags/env"),
                remote: None,
            },
        );
    }
    let dir = match &around.config_dir {
        Some(d) => d,
        None => {
            return Err(ConfigError::NoHome);
        },
    };
    let remotes = match &around.remotes {
        Some(r) => r,
        None => {
            return Err(ConfigError::NoConfig(copy_text(dir.as_str())));
        },
    };
    let name = match find_remote_name(remote_flag, &around.session) {
        Some(n) => n,
        None => {
            return Err(ConfigError::NoRemoteGiven);
        },
    };
    let remote = match remotes.get(name.as_str()) {
        Some(r) => r,
        None => {
            return Err(ConfigError::UnknownRemote { name, known: list_names(remotes) });
        },
    };
    let url = match server {
        Some(s) => s,
        None => match remote.get_str("url") {
            Some(u) => copy_text(u.as_str()),
            None => {
                return Err(ConfigError::NoUrl(name));
            },
        },
    };
    let found = match token {
        Some(t) => Some(t),
        None => match find_token(remote, "auth") {
            Some(t) => Some(t),
            None => find_token(remote, "device"),
        },
    };
    match found {
        Some(t) => {
            let mut source = copy_text("remote ");
            source.append(name.as_str());
            Ok(Endpoint { server: url, token: t, source, remote: Some(name) })
        },
        None => Err(ConfigError::NoToken(name)),
    }
}

/// Finds the server and the token.
pub fn resolve(
    server_flag: Option<&str>,
    token_flag: Option<&str>,
    remote_flag: Option<&str>,
    around: &Surroundings,
) -> (r: Result<Endpoint, ConfigError>)
    ensures
        (match r {
            Ok(e) => resolved(
                option_str(server_flag),
                option_str(token_flag),
                option_str(remote_flag),
                around.settings(),
            ) == Ok::<EndpointView, ConfigErrorView>(e@),
            Err(e) => resolved(
                option_str(server_flag),
                option_str(token_flag),
                option_str(remote_flag),
                around.settings(),
            ) == Err::<EndpointView, ConfigErrorView>(e@),
        }),
{
    resolve_in(server_flag, token_flag, remote_flag, &around.read())
}

/// Finds the server only, for what needs no token.
pub fn resolve_server(
    server_flag: Option<&str>,
    remote_flag: Option<&str>,
    around: &Surroundings,
) -> (r: Result<String, ConfigError>)
    ensures
        (match r {
            Ok(s) => match resolved(
                option_str(server_flag),
                Some(""@),
                option_str(remote_flag),
                around.settings(),
            ) {
                Ok(e) => s@ == e.server,
                Err(_) => false,
            },
            Err(e) => resolved(
                option_str(server_flag),
                Some(""@),
                option_str(remote_flag),
                around.settings(),
            ) == Err::<EndpointView, ConfigErrorView>(e@),
        }),
{
    match resolve(server_flag, Some(""), remote_flag, around) {
        Ok(e) => Ok(e.server),
        Err(e) => Err(e),
    }
}

impl ConfigErrorView {
    /// What is reported.
    pub open spec fn message(self) -> Seq<char> {
        match self {
            ConfigErrorView::NoHome => "cannot determine home directory"@,
            ConfigErrorView::NoConfig(dir) => "no usable config in "@ + dir
                + " (pass --server/--token, set CANVAS_SERVER/CANVAS_API_TOKEN, or log in with canvas-cli)"@,
            ConfigErrorView::NoRemoteGiven =>
                "no --remote given and no boundRemote in cli-session.json"@,
            ConfigErrorView::UnknownRemote { name, known } => "remote \""@ + name
                + "\" not found in remotes.json (known: "@ + known + ")"@,
            ConfigErrorView::NoUrl(name) => "remote \""@ + name + "\" has no url"@,
            ConfigErrorView::NoToken(name) => "remote \""@ + name + "\" has no token"@,
        }
    }
}

impl ConfigError {
    /// What is reported.
    pub fn message(&self) -> (r: String)
        ensures
            r@ == self@.message(),
    {
        match self {
            ConfigError::NoHome => copy_text("cannot determine home directory"),
            ConfigError::NoConfig(dir) => {
                let mut out = copy_text("no usable config in ");
                out.append(dir.as_str());
                out.append(
                    " (pass --server/--token, set CANVAS_SERVER/CANVAS_API_TOKEN, or log in with canvas-cli)",
                );
                out
            },
            ConfigError::NoRemoteGiven => copy_text(
                "no --remote given and no boundRemote in cli-session.json",
            ),
            ConfigError::UnknownRemote { name, known } => {
                let mut out = copy_text("remote \"");
                out.append(name.as_str());
                out.append("\" not found in remotes.json (known: ");
                out.append(known.as_str());
                out.append(")");
                out
            },
            ConfigError::NoUrl(name) => {
                let mut out = copy_text("remote \"");
                out.append(name.as_str());
                out.append("\" has no url");
                out
            },
            ConfigError::NoToken(name) => {
                let mut out = copy_text("remote \"");
                out.append(name.as_str());
                out.append("\" has no token");
                out
            },
        }
    }
}

/// What is given on the command line counts, whatever is found elsewhere.
pub proof fn law_flags_come_first(
    server: Seq<char>,
    token: Seq<char>,
    remote_flag: Option<Seq<char>>,
    around: SettingsView,
)
    ensures
        resolved(Some(server), Some(token), remote_flag, around) == Ok::<
            EndpointView,
            ConfigErrorView,
        >(EndpointView { server, token, source: "flags/env"@, remote: None }),
{
}

/// What is given in the environment comes before any remote.
pub proof fn law_environment_comes_before_remotes(
    remote_flag: Option<Seq<char>>,
    around: SettingsView,
)
    requires
        around.server is Some,
        around.token is Some,
    ensures
        resolved(None, None, remote_flag, around) == Ok::<EndpointView, ConfigErrorView>(
            EndpointView {
                server: around.server->0,
                token: around.token->0,
                source: "flags/env"@,
                remote: None,
            },
        ),
{
}

/// A remote that is asked for comes before the one that the client is bound to.
pub proof fn law_asked_remote_comes_first(
    name: Seq<char>,
    around: SettingsView,
    other: Option<JsonView>,
)
    ensures
        resolved(None, None, Some(name), around) == resolved(
            None,
            None,
            Some(name),
            SettingsView { session: other, ..around },
        ),
{
}

/// Whether a remote has a token that is not empty in a part.
pub open spec fn holds_token(remote: JsonView, part: Seq<char>, t: Seq<char>) -> bool {
    &&& t.len() > 0
    &&& remote is Object && remote->Object_0.contains_key(part)
    &&& remote->Object_0[part].says("token"@, t)
}

/// Whether a text is what a remote's own settings give: its URL.
pub open spec fn is_url_of(remote: JsonView, url: Seq<char>) -> bool {
    remote.says("url"@, url)
}

/// Whether a text is what a remote's own settings give: the token of a login, or that of a device
/// where there is no login.
pub open spec fn is_token_of(remote: JsonView, token: Seq<char>) -> bool {
    ||| holds_token(remote, "auth"@, token)
    ||| holds_token(remote, "device"@, token) && forall|t: Seq<char>|
        !#[trigger] holds_token(remote, "auth"@, t)
}

/// Whether a remote is the one to use: the one that is asked for, or else the one that the client
/// is bound to.
pub open spec fn is_remote_in(
    around: SettingsView,
    flag: Option<Seq<char>>,
    name: Seq<char>,
    remote: JsonView,
) -> bool {
    &&& if flag is Some {
        name == flag->0
    } else {
        around.session is Some && around.session->0.says("boundRemote"@, name)
    }
    &&& around.remotes is Some && around.remotes->0 is Object
    &&& around.remotes->0->Object_0.contains_key(name)
    &&& around.remotes->0->Object_0[name] == remote
}

/// Whether the server and the token come from where they should, each for itself: from the flag
/// where it is given, else from the environment where it is set there, and only else from the
/// remote.
pub open spec fn comes_from(
    e: EndpointView,
    server_flag: Option<Seq<char>>,
    token_flag: Option<Seq<char>>,
    around: SettingsView,
    remote: JsonView,
) -> bool {
    &&& server_flag is Some ==> e.server == server_flag->0
    &&& server_flag is None && around.server is Some ==> e.server == around.server->0
    &&& server_flag is None && around.server is None ==> is_url_of(remote, e.server)
    &&& token_flag is Some ==> e.token == token_flag->0
    &&& token_flag is None && around.token is Some ==> e.token == around.token->0
    &&& token_flag is None && around.token is None ==> is_token_of(remote, e.token)
}

/// Whenever a server and a token are found, each of the two is by itself that of the flag where
/// the flag is given, else that of the environment where it is set, and only else that of the
/// remote, also where only one of the two is given. A remote is named exactly where one was used.
pub proof fn law_each_setting_has_its_own_source(
    server_flag: Option<Seq<char>>,
    token_flag: Option<Seq<char>>,
    remote_flag: Option<Seq<char>>,
    around: SettingsView,
)
    ensures
        (match resolved(server_flag, token_flag, remote_flag, around) {
            Ok(e) => {
                let given = (server_flag is Some || around.server is Some) && (token_flag is Some
                    || around.token is Some);
                &&& given <==> e.remote is None
                &&& given ==> comes_from(e, server_flag, token_flag, around, JsonView::Null)
                    && e.source == "flags/env"@
                &&& !given ==> {
                    let remote = around.remotes->0->Object_0[e.remote->0];
                    &&& is_remote_in(around, remote_flag, e.remote->0, remote)
                    &&& comes_from(e, server_flag, token_flag, around, remote)
                    &&& e.source == "remote "@ + e.remote->0
                }
            },
            Err(_) => true,
        }),
{
    match resolved(server_flag, token_flag, remote_flag, around) {
        Ok(e) => {
            if e.remote is Some {
                let remote = around.remotes->0->Object_0[e.remote->0];
                assert(around.remotes->0.member(e.remote->0) == Some(remote));
                lemma_token_in(remote, "auth"@);
                lemma_token_in(remote, "device"@);
            }
        },
        Err(_) => {},
    }
}

proof fn lemma_token_in(remote: JsonView, part: Seq<char>)
    ensures
        (match token_in(remote, part) {
            Some(t) => holds_token(remote, part, t),
            None => forall|t: Seq<char>| !#[trigger] holds_token(remote, part, t),
        }),
{
}

/// A server and a token are found wherever the flags, the environment and the remote to use have
/// them between them.
pub proof fn law_what_is_there_is_found(
    server_flag: Option<Seq<char>>,
    token_flag: Option<Seq<char>>,
    remote_flag: Option<Seq<char>>,
    around: SettingsView,
    name: Seq<char>,
    remote: JsonView,
    url: Seq<char>,
    token: Seq<char>,
)
    requires
        around.config_dir is Some,
        is_remote_in(around, remote_flag, name, remote),
        server_flag is Some || around.server is Some || is_url_of(remote, url),
        token_flag is Some || around.token is Some || is_token_of(remote, token),
    ensures
        resolved(server_flag, token_flag, remote_flag, around) is Ok,
{
    lemma_token_in(remote, "auth"@);
    lemma_token_in(remote, "device"@);
    if remote_flag is None {
        assert(around.session->0.member_text("boundRemote"@) == Some(name));
    }
    assert(around.remotes->0.member(name) == Some(remote));
    if is_url_of(remote, url) {
        assert(remote.member_text("url"@) == Some(url));
    }
}

/// Where something is missing, it is named: the home directory before the configuration, the
/// configuration before the remote, the remote before its URL, and the URL before the token.
pub proof fn law_what_is_missing_is_named(
    server_flag: Option<Seq<char>>,
    token_flag: Option<Seq<char>>,
    remote_flag: Option<Seq<char>>,
    around: SettingsView,
)
    ensures
        (match resolved(server_flag, token_flag, remote_flag, around) {
            Ok(_) => true,
            Err(ConfigErrorView::NoHome) => around.config_dir is None,
            Err(ConfigErrorView::NoConfig(dir)) => around.config_dir == Some(dir)
                && around.remotes is None,
            Err(ConfigErrorView::NoRemoteGiven) => around.config_dir is Some && around.remotes is Some
                && remote_flag is None && (around.session is Some
                ==> around.session->0.says_nothing("boundRemote"@)),
            Err(ConfigErrorView::UnknownRemote { name, known }) => {
                &&& around.config_dir is Some && around.remotes is Some
                &&& known == known_names(around.remotes->0)
                &&& remote_flag is Some ==> name == remote_flag->0
                &&& remote_flag is None ==> around.session is Some && around.session->0.says(
                    "boundRemote"@,
                    name,
                )
                &&& around.remotes->0 is Object ==> !around.remotes->0->Object_0.contains_key(name)
            },
            Err(ConfigErrorView::NoUrl(name)) => {
                let remote = around.remotes->0->Object_0[name];
                &&& is_remote_in(around, remote_flag, name, remote)
                &&& server_flag is None && around.server is None
                &&& remote.says_nothing("url"@)
            },
            Err(ConfigErrorView::NoToken(name)) => {
                let remote = around.remotes->0->Object_0[name];
                &&& is_remote_in(around, remote_flag, name, remote)
                &&& token_flag is None && around.token is None
                &&& forall|t: Seq<char>| !#[trigger] is_token_of(remote, t)
            },
        }),
{
    match resolved(server_flag, token_flag, remote_flag, around) {
        Err(ConfigErrorView::NoUrl(name)) => {
            let remote = around.remotes->0->Object_0[name];
            assert(around.remotes->0.member(name) == Some(remote));
        },
        Err(ConfigErrorView::NoToken(name)) => {
            let remote = around.remotes->0->Object_0[name];
            assert(around.remotes->0.member(name) == Some(remote));
            lemma_token_in(remote, "auth"@);
            lemma_token_in(remote, "device"@);
        },
        _ => {},
    }
}

/// The names that are known are listed one behind the other, in their order.
pub proof fn law_known_remotes_are_listed(m: Map<Seq<char>, JsonView>, s: Seq<Seq<char>>, n: Seq<char>)
    requires
        m.dom().finite(),
    ensures
        exists|names: Seq<Seq<char>>|
            strmap::ascending(names) && names.to_set() == m.dom() && known_names(JsonView::Object(m))
                == #[trigger] comma_joined(names),
        comma_joined(Seq::empty()).len() == 0,
        comma_joined(seq![n]) == n,
        s.len() > 0 ==> comma_joined(s.push(n)) == comma_joined(s) + ", "@ + n,
{
    strmap::lemma_ordered(m.dom());
    let names = strmap::ordered(m.dom());
    assert(known_names(JsonView::Object(m)) == comma_joined(names));
    assert(s.push(n).drop_last() =~= s);
}

/// What is told of something that is missing names it.
pub proof fn law_messages(dir: Seq<char>, name: Seq<char>, known: Seq<char>)
    ensures
        ConfigErrorView::NoHome.message() == "cannot determine home directory"@,
        ConfigErrorView::NoConfig(dir).message() == "no usable config in "@ + dir
            + " (pass --server/--token, set CANVAS_SERVER/CANVAS_API_TOKEN, or log in with canvas-cli)"@,
        ConfigErrorView::NoRemoteGiven.message()
            == "no --remote given and no boundRemote in cli-session.json"@,
        (ConfigErrorView::UnknownRemote { name, known }).message() == "remote \""@ + name
            + "\" not found in remotes.json (known: "@ + known + ")"@,
        ConfigErrorView::NoUrl(name).message() == "remote \""@ + name + "\" has no url"@,
        ConfigErrorView::NoToken(name).message() == "remote \""@ + name + "\" has no token"@,
{
}

} // verus!
