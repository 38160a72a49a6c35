use canvas_fuse::config::{
    resolve, resolve_in, resolve_server, ConfigError, Settings, Surroundings,
};
use canvas_fuse::events::{
    channel_from_payload, context_id_of, failure_of, greet, job_for, next_delay, Subscriber,
};
use canvas_fuse::api::ContextInfo;
use canvas_fuse::json::Json;
use canvas_fuse::state::Tree;
use canvas_fuse::worker::{filter_contexts, merge_jobs, resync_interval, Job};

fn nothing() -> Surroundings {
    Surroundings {
        server: None,
        token: None,
        config_dir: None,
        remotes: None,
        session: None,
    }
}

const REMOTES: &str = r#"{
    "home": {
        "url": "https://home",
        "auth": { "token": "t-home" },
        "device": { "token": "t-other" }
    },
    "device": {
        "url": "https://dev",
        "auth": { "token": "" },
        "device": { "token": "t-dev" }
    },
    "bare": {},
    "locked": { "url": "https://l" }
}"#;

fn configured() -> Surroundings {
    Surroundings {
        config_dir: Some("/home/u/.canvas/config".to_string()),
        remotes: Some(REMOTES.to_string()),
        session: Some("{\"boundRemote\":\"home\"}".to_string()),
        ..nothing()
    }
}

#[test]
fn flags_come_before_the_environment() {
    let mut s = configured();
    s.server = Some("https://env".to_string());
    s.token = Some("t-env".to_string());
    let e = resolve(Some("https://flag"), Some("t-flag"), None, &s).unwrap();
    assert_eq!(
        (e.server.as_str(), e.token.as_str(), e.source.as_str()),
        ("https://flag", "t-flag", "flags/env")
    );
    assert_eq!(e.remote, None);
    let e = resolve(Some("https://flag"), None, None, &s).unwrap();
    assert_eq!((e.server.as_str(), e.token.as_str()), ("https://flag", "t-env"));
    let e = resolve(None, None, Some("device"), &s).unwrap();
    assert_eq!((e.server.as_str(), e.token.as_str()), ("https://env", "t-env"));
}

#[test]
fn remotes_come_after_the_environment() {
    let s = configured();
    let e = resolve(None, None, None, &s).unwrap();
    assert_eq!(
        (e.server.as_str(), e.token.as_str(), e.source.as_str()),
        ("https://home", "t-home", "remote home")
    );
    let e = resolve(None, None, Some("device"), &s).unwrap();
    assert_eq!(
        (e.server.as_str(), e.token.as_str(), e.source.as_str()),
        ("https://dev", "t-dev", "remote device")
    );
    assert_eq!(e.remote.as_deref(), Some("device"));
    // one of the two given, the other from the remote
    let e = resolve(Some("https://flag"), None, None, &s).unwrap();
    assert_eq!(
        (e.server.as_str(), e.token.as_str()),
        ("https://flag", "t-home")
    );
}

fn message(r: Result<canvas_fuse::config::Endpoint, ConfigError>) -> String {
    match r {
        Ok(e) => panic!("{e:?}"),
        Err(e) => e.message(),
    }
}

#[test]
fn missing_configuration_is_reported() {
    assert_eq!(
        message(resolve(None, None, None, &nothing())),
        "cannot determine home directory"
    );
    let mut s = configured();
    s.remotes = None;
    assert_eq!(
        message(resolve(None, None, None, &s)),
        "no usable config in /home/u/.canvas/config (pass --server/--token, set CANVAS_SERVER/CANVAS_API_TOKEN, or log in with canvas-cli)"
    );
    // a file that cannot be read is as good as none
    s.remotes = Some("{".to_string());
    assert!(matches!(
        resolve(None, None, None, &s),
        Err(ConfigError::NoConfig(_))
    ));
    let mut s = configured();
    s.session = None;
    assert_eq!(
        message(resolve(None, None, None, &s)),
        "no --remote given and no boundRemote in cli-session.json"
    );
    let s = configured();
    assert_eq!(
        message(resolve(None, None, Some("x"), &s)),
        "remote \"x\" not found in remotes.json (known: bare, device, home, locked)"
    );
    assert_eq!(
        message(resolve(None, None, Some("bare"), &s)),
        "remote \"bare\" has no url"
    );
    assert_eq!(
        message(resolve(None, None, Some("locked"), &s)),
        "remote \"locked\" has no token"
    );
    let mut s = configured();
    s.remotes = Some("[]".to_string());
    assert_eq!(
        message(resolve(None, None, Some("x"), &s)),
        "remote \"x\" not found in remotes.json (known: )"
    );
}

#[test]
fn settings_that_were_read_decide() {
    let read = configured().read();
    assert_eq!(read.config_dir.as_deref(), Some("/home/u/.canvas/config"));
    assert!(read.server.is_none() && read.token.is_none());
    let e = resolve_in(None, None, None, &read).unwrap();
    assert_eq!(
        (e.server.as_str(), e.token.as_str(), e.source.as_str()),
        ("https://home", "t-home", "remote home")
    );
    let given = Settings {
        server: None,
        token: Some("t".to_string()),
        config_dir: Some("/c".to_string()),
        remotes: Some(Json::object().with("r", Json::object().with("url", Json::text("u")))),
        session: Some(Json::object().with("boundRemote", Json::text("r"))),
    };
    let e = resolve_in(None, None, None, &given).unwrap();
    assert_eq!((e.server.as_str(), e.token.as_str()), ("u", "t"));
}

#[test]
fn server_alone_needs_no_token() {
    let s = configured();
    assert_eq!(
        resolve_server(None, Some("locked"), &s).unwrap(),
        "https://l"
    );
    assert_eq!(
        resolve_server(Some("https://f"), None, &nothing()).unwrap(),
        "https://f"
    );
    assert!(matches!(
        resolve_server(None, None, &nothing()),
        Err(ConfigError::NoHome)
    ));
}

fn channel(m: Option<Json>) -> Option<String> {
    m.map(|j| j.get_str("channel").unwrap().clone())
}

#[test]
fn subscriptions_are_asked_for_until_confirmed() {
    let mut s = Subscriber::default();
    assert_eq!(channel(s.subscribe("work")), None);
    s.connected();
    assert_eq!(channel(s.subscribe("work")).as_deref(), Some("context:work"));
    assert_eq!(
        channel(s.subscribe_workspace("w1")).as_deref(),
        Some("workspace:w1")
    );
    s.confirm("context:work");
    assert_eq!(channel(s.subscribe("work")), None);
    assert_eq!(
        channel(s.subscribe("other")).as_deref(),
        Some("context:other")
    );
    // a new connection: nothing is subscribed to any more
    s.connected();
    assert_eq!(channel(s.subscribe("work")).as_deref(), Some("context:work"));
}

fn context(id: &str) -> ContextInfo {
    ContextInfo {
        id: id.to_string(),
        url: "/".to_string(),
        workspace_id: None,
        raw: Json::object(),
    }
}

#[test]
fn new_connections_subscribe_to_what_is_shown() {
    let mut tree = Tree::new();
    tree.apply_contexts(&[context("b"), context("a")]);
    let mut s = Subscriber::new();
    let sent: Vec<String> = greet(&mut s, &tree)
        .iter()
        .map(|j| j.get_str("channel").unwrap().clone())
        .collect();
    assert_eq!(sent, vec!["context:a", "context:b"]);
    let ws = Tree::workspace_rooted("ws-1".to_string(), "n".to_string());
    let sent = greet(&mut s, &ws);
    assert_eq!(sent.len(), 1);
    assert_eq!(sent[0].get_str("channel").unwrap(), "workspace:ws-1");
}

fn values(pairs: &[(&str, &str)]) -> Vec<Json> {
    vec![pairs
        .iter()
        .fold(Json::object(), |j, (k, v)| j.with(k, Json::text(v)))]
}

fn shown(j: Option<Job>) -> String {
    match j {
        None => "-".to_string(),
        Some(Job::RefreshAll) => "*".to_string(),
        Some(Job::RefreshContext(c)) => c,
    }
}

#[test]
fn events_become_jobs() {
    let work = values(&[("contextId", "work")]);
    let by_id = values(&[("id", "home")]);
    assert_eq!(shown(job_for(false, "document.inserted", &work)), "work");
    assert_eq!(shown(job_for(false, "context.url.set", &by_id)), "home");
    assert_eq!(shown(job_for(false, "context.updated", &Vec::new())), "*");
    assert_eq!(shown(job_for(false, "context.created", &work)), "*");
    assert_eq!(shown(job_for(false, "context.deleted", &work)), "*");
    assert_eq!(shown(job_for(false, "tree.path.inserted", &work)), "-");
    assert_eq!(shown(job_for(false, "document", &work)), "-");
    assert_eq!(shown(job_for(true, "tree.path.inserted", &work)), "*");
    assert_eq!(shown(job_for(true, "document.updated", &work)), "*");
    assert_eq!(shown(job_for(true, "context.url.set", &work)), "-");
    assert_eq!(
        context_id_of(&values(&[("contextId", "a"), ("id", "b")])).as_deref(),
        Some("a")
    );
    assert_eq!(
        channel_from_payload(&values(&[("channel", "context:x")])).as_deref(),
        Some("context:x")
    );
    assert_eq!(channel_from_payload(&work), None);
}

#[test]
fn failures_of_the_connection() {
    let soft = vec![Json::object()
        .with("retryable", Json::Bool(true))
        .with("message", Json::text("starting"))];
    assert_eq!(failure_of(&soft, "raw"), (true, "starting".to_string()));
    assert_eq!(failure_of(&Vec::new(), "raw"), (false, "raw".to_string()));
    let odd = vec![Json::object().with("retryable", Json::text("yes"))];
    assert_eq!(failure_of(&odd, "raw"), (false, "raw".to_string()));
    let mut d = 1;
    let mut seen = vec![d];
    for _ in 0..6 {
        d = next_delay(d);
        seen.push(d);
    }
    assert_eq!(seen, vec![1, 2, 4, 8, 16, 30, 30]);
    assert_eq!(next_delay(u64::MAX), 30);
}

#[test]
fn bursts_of_jobs_are_merged() {
    let ctx = |c: &str| Job::RefreshContext(c.to_string());
    let merged = |jobs: Vec<Job>| -> Vec<String> {
        merge_jobs(&jobs).into_iter().map(|j| shown(Some(j))).collect()
    };
    assert_eq!(merged(vec![ctx("a"), ctx("b"), ctx("a")]), vec!["a", "b"]);
    assert_eq!(merged(vec![ctx("a"), Job::RefreshAll, ctx("b")]), vec!["*"]);
    assert!(merged(vec![]).is_empty());
    assert_eq!(resync_interval(0), 5);
    assert_eq!(resync_interval(30), 30);
}

#[test]
fn filters_keep_the_contexts_that_are_asked_for() {
    let ids = |v: Vec<ContextInfo>| -> Vec<String> { v.into_iter().map(|c| c.id).collect() };
    let all = || vec![context("a"), context("b"), context("c")];
    assert_eq!(ids(filter_contexts(all(), &None)), vec!["a", "b", "c"]);
    assert_eq!(
        ids(filter_contexts(
            all(),
            &Some(vec!["c".to_string(), "a".to_string()])
        )),
        vec!["a", "c"]
    );
    assert!(ids(filter_contexts(all(), &Some(vec![]))).is_empty());
}
