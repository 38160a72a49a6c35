use canvas_fuse::api::ContextInfo;
use canvas_fuse::json::Json;
use canvas_fuse::reports::{
    asked_contexts, context_line, contexts_report, status_lines, status_report, Mount, Pong,
};
use canvas_fuse::runtime::{
    default_log_file, fnv_hash, health_word, is_leftover, is_mounted, mount_data_dir,
    sanitize_segment, state_file_for, status_word, MountState,
};
use canvas_fuse::state::Invalidation;
use canvas_fuse::unmount::{
    end_line, unmount_step, Sight, UnmountAction, UnmountEnd, UnmountStage,
};
use canvas_fuse::worker::{notices, Notice};

#[test]
fn segments_are_sanitized() {
    assert_eq!(sanitize_segment("me@host.example"), "me@host.example");
    assert_eq!(sanitize_segment("https://a b/"), "https___a_b");
    assert_eq!(sanitize_segment("../.."), "default");
    assert_eq!(sanitize_segment(""), "default");
    assert_eq!(sanitize_segment("_é_"), "é");
}

#[test]
fn hashes_are_fnv_1a() {
    assert_eq!(fnv_hash(""), 0xcbf29ce484222325);
    assert_eq!(fnv_hash("a"), 0xaf63dc4c8601ec8c);
    assert_eq!(fnv_hash("foobar"), 0x85944171f73967e8);
}

#[test]
fn state_and_log_files_are_named_after_the_mountpoint() {
    let h = format!("{:08x}", fnv_hash("/home/u/My Canvas/"));
    assert_eq!(
        state_file_for("/home/u/My Canvas/"),
        format!("home_u_My_Canvas.{h}.json")
    );
    assert_eq!(
        default_log_file("/home/u/My Canvas/"),
        format!("home_u_My_Canvas.{h}.log")
    );
    // the same letters, another place
    assert_ne!(state_file_for("/a/b"), state_file_for("/a_b"));
}

#[test]
fn data_is_kept_by_context_or_by_mountpoint() {
    assert_eq!(
        mount_data_dir("u@home", &["work".to_string()], "/mnt/x"),
        vec![".canvas", "u@home", "fuse", "contexts", "work"]
    );
    let h = format!("mnt_x.{:08x}", fnv_hash("/mnt/x"));
    assert_eq!(
        mount_data_dir("u@home", &[], "/mnt/x"),
        vec![".canvas", "u@home", "fuse", "mounts", h.as_str()]
    );
    assert_eq!(
        mount_data_dir("", &["a".to_string(), "b".to_string()], "/mnt/x")[1],
        "default"
    );
}

#[test]
fn mounts_are_found_in_the_kernels_list() {
    let list = "proc /proc proc rw 0 0\n\
                canvas /home/u/My\\040Canvas fuse.canvasfs rw,nosuid 0 0\n\
                sshfs /mnt/ssh fuse.sshfs rw 0 0\n\
                short /x\n";
    assert!(is_mounted(list, "/home/u/My Canvas"));
    assert!(!is_mounted(list, "/home/u"));
    assert!(!is_mounted(list, "/mnt/ssh"));
    assert!(!is_mounted(list, "/x"));
    assert!(!is_mounted("", "/x"));
}

fn state() -> MountState {
    MountState {
        mountpoint: "/mnt/c".to_string(),
        server: "https://s".to_string(),
        pid: 42,
        started_at: "2026-01-01T00:00:00+00:00".to_string(),
        contexts: None,
        log_file: None,
    }
}

#[test]
fn health_of_mounts() {
    assert_eq!(status_word(true, true), "ok      ");
    assert_eq!(status_word(true, false), "broken  ");
    assert_eq!(status_word(false, true), "orphaned");
    assert_eq!(status_word(false, false), "stale   ");
    for a in [true, false] {
        for m in [true, false] {
            assert_eq!(status_word(a, m).trim(), health_word(a, m));
            assert_eq!(is_leftover(a, m), health_word(a, m) == "stale");
        }
    }
}

#[test]
fn reports_of_mounts() {
    let mut s = state();
    assert_eq!(
        s.report(true, true),
        "ok        /mnt/c  pid 42  https://s  since 2026-01-01T00:00:00+00:00"
    );
    s.contexts = Some(vec!["a".to_string(), "b".to_string()]);
    assert!(s.report(false, true).ends_with("  contexts: a,b"));
    assert_eq!(
        s.conflict(true, true).as_deref(),
        Some("/mnt/c is already mounted by pid 42 (canvas-fuse unmount first)")
    );
    assert_eq!(s.conflict(true, false), None);
    assert_eq!(s.conflict(false, true), None);
}

#[test]
fn an_unmount_without_a_process() {
    let sight = |known, mounted| Sight {
        known,
        alive: false,
        mounted,
    };
    for (known, mounted, end) in [
        (true, true, UnmountEnd::Force),
        (false, true, UnmountEnd::Force),
        (true, false, UnmountEnd::CleanedUp),
        (false, false, UnmountEnd::NotMounted),
    ] {
        let (stage, action) = unmount_step(UnmountStage::Start, sight(known, mounted));
        assert_eq!(action, UnmountAction::Forget);
        assert_eq!(
            unmount_step(stage, sight(known, mounted)),
            (UnmountStage::Over, UnmountAction::Finish(end))
        );
    }
}

/// The actions of an unmount, where the mount is there for some looks and the process for others.
fn actions(mounted: usize, alive: usize) -> Vec<UnmountAction> {
    let mut stage = UnmountStage::Start;
    let mut out = Vec::new();
    while stage != UnmountStage::Over {
        let sight = Sight {
            known: true,
            alive: out.len() < alive,
            mounted: out.len() < mounted,
        };
        let (next, action) = unmount_step(stage, sight);
        stage = next;
        out.push(action);
    }
    out
}

#[test]
fn an_unmount_waits_for_the_process() {
    assert_eq!(
        actions(3, 6),
        vec![
            UnmountAction::Terminate,
            UnmountAction::Wait,
            UnmountAction::Wait,
            UnmountAction::Proceed,
            UnmountAction::Wait,
            UnmountAction::Wait,
            UnmountAction::Proceed,
            UnmountAction::Finish(UnmountEnd::Released)
        ]
    );
    // a process that does not end is killed
    let stuck = actions(1, 1000);
    assert_eq!(stuck[0], UnmountAction::Terminate);
    assert_eq!(stuck.iter().filter(|a| **a == UnmountAction::Wait).count(), 20);
    assert_eq!(stuck[stuck.len() - 2], UnmountAction::Kill);
    assert_eq!(stuck[stuck.len() - 1], UnmountAction::Finish(UnmountEnd::Released));
    // a mount that does not go is taken away
    let held = actions(1000, 1000);
    assert_eq!(held.len(), 75);
    assert_eq!(held.iter().filter(|a| **a == UnmountAction::Wait).count(), 70);
    assert_eq!(held[72], UnmountAction::Kill);
    assert_eq!(held[73], UnmountAction::Insist);
    assert_eq!(held[74], UnmountAction::Finish(UnmountEnd::Force));
}

#[test]
fn ends_are_told() {
    assert_eq!(end_line(UnmountEnd::Released, "/m"), "unmounted /m");
    assert_eq!(end_line(UnmountEnd::Force, "/m"), "unmounted /m (forced)");
    assert_eq!(end_line(UnmountEnd::NotMounted, "/m"), "/m is not mounted");
    assert_eq!(
        end_line(UnmountEnd::CleanedUp, "/m"),
        "cleaned up stale mount /m"
    );
}

#[test]
fn mounts_are_reported() {
    assert_eq!(status_lines(&vec![]), vec!["no canvas mounts"]);
    let mut crashed = state();
    crashed.contexts = Some(vec!["a".to_string(), "b".to_string()]);
    crashed.log_file = Some("/tmp/l".to_string());
    let mounts = vec![
        Mount {
            state: state(),
            alive: true,
            mounted: true,
        },
        Mount {
            state: crashed,
            alive: false,
            mounted: true,
        },
    ];
    let lines = status_lines(&mounts);
    assert_eq!(lines[0], mounts[0].state.report(true, true));
    assert_eq!(lines[1], mounts[1].state.report(false, true));
    assert_eq!(lines.len(), 2);
    let all = status_report(&mounts);
    let entries = all.as_array().unwrap();
    assert_eq!(entries.len(), 2);
    assert_eq!(entries[0].get_str("mountpoint").unwrap(), "/mnt/c");
    assert_eq!(entries[0].get_str("server").unwrap(), "https://s");
    assert_eq!(entries[0].get_u64("pid"), Some(42));
    assert_eq!(entries[0].get("alive").unwrap().as_bool(), Some(true));
    assert_eq!(entries[0].get_str("status").unwrap(), "ok");
    assert!(matches!(entries[0].get("contexts"), Some(Json::Null)));
    assert!(matches!(entries[0].get("logFile"), Some(Json::Null)));
    assert_eq!(entries[1].get("alive").unwrap().as_bool(), Some(false));
    assert_eq!(entries[1].get("mounted").unwrap().as_bool(), Some(true));
    assert_eq!(entries[1].get_str("status").unwrap(), "orphaned");
    assert_eq!(
        entries[1].get_str("startedAt").unwrap(),
        "2026-01-01T00:00:00+00:00"
    );
    assert_eq!(
        entries[1].get_array("contexts").unwrap()[1].as_str().unwrap(),
        "b"
    );
    assert_eq!(entries[1].get_str("logFile").unwrap(), "/tmp/l");
}

#[test]
fn servers_are_reported() {
    let pong = |payload| Pong {
        server: "https://s".to_string(),
        payload,
        millis: 12,
        source: "flags/env".to_string(),
    };
    let known = pong(
        Json::object()
            .with("version", Json::text("2.0"))
            .with("appName", Json::text("canvas")),
    );
    let mute = pong(Json::Null);
    assert_eq!(
        known.greet(),
        "server https://s (v2.0, 12 ms, auth via flags/env)"
    );
    assert_eq!(mute.greet(), "server https://s (v?, 12 ms, auth via flags/env)");
    assert_eq!(known.report(), "https://s: canvas v2.0 (12 ms)");
    assert_eq!(mute.report(), "https://s: canvas-server v? (12 ms)");
    assert_eq!(
        known.access(&Ok(3)),
        "auth ok (flags/env, 3 contexts accessible)"
    );
    assert_eq!(
        known.access(&Err("no".to_string())),
        "auth FAILED (flags/env): no"
    );
    let ok = known.to_json(&Ok(3));
    assert_eq!(ok.get_str("server").unwrap(), "https://s");
    assert_eq!(ok.get("reachable").unwrap().as_bool(), Some(true));
    assert_eq!(ok.get_u64("rttMs"), Some(12));
    assert_eq!(ok.get_str("version").unwrap(), "2.0");
    assert_eq!(ok.get_str("appName").unwrap(), "canvas");
    assert_eq!(ok.get("auth").unwrap().as_bool(), Some(true));
    assert_eq!(ok.get_u64("contexts"), Some(3));
    assert_eq!(ok.get_str("source").unwrap(), "flags/env");
    let refused = mute.to_json(&Err("no".to_string()));
    assert!(matches!(refused.get("version"), Some(Json::Null)));
    assert!(matches!(refused.get("contexts"), Some(Json::Null)));
    assert_eq!(refused.get("auth").unwrap().as_bool(), Some(false));
}

#[test]
fn contexts_are_reported() {
    let raw = Json::object()
        .with("id", Json::text("work"))
        .with("url", Json::text("u://x"))
        .with("more", Json::Bool(true));
    let contexts = vec![ContextInfo {
        id: "work".to_string(),
        url: "u://x".to_string(),
        workspace_id: None,
        raw,
    }];
    assert_eq!(context_line(&contexts[0]), "work\tu://x");
    let all = contexts_report(&contexts);
    let entry = &all.as_array().unwrap()[0];
    assert_eq!(entry.get_str("id").unwrap(), "work");
    assert_eq!(entry.get("more").unwrap().as_bool(), Some(true));
    assert_eq!(asked_contexts(vec![]), None);
    assert_eq!(
        asked_contexts(vec!["a".to_string()]),
        Some(vec!["a".to_string()])
    );
}

#[test]
fn the_kernel_is_told_of_everything() {
    let inv = Invalidation {
        removed: vec![(3, 9, "a.md".to_string())],
        changed: vec![4, 5],
        dirty_dirs: vec![3],
    };
    assert_eq!(
        notices(&inv),
        vec![
            Notice::Gone {
                dir: 3,
                ino: 9,
                name: "a.md".to_string()
            },
            Notice::Stale { ino: 4 },
            Notice::Stale { ino: 5 },
            Notice::Stale { ino: 3 },
        ]
    );
}
