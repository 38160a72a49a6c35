use canvas_fuse::blobs::{
    cache_key, reply_slice, BlobStore, Lru, PendingRead, ReadStep, MIN_BUDGET,
};
use std::sync::Arc;

fn blob(n: usize, b: u8) -> Arc<Vec<u8>> {
    Arc::new(vec![b; n])
}

fn pending(offset: i64, size: u32, reply: u64) -> PendingRead {
    PendingRead {
        offset,
        size,
        reply,
    }
}

#[test]
fn slices_stay_within_the_blob() {
    let b = b"0123456789".to_vec();
    assert_eq!(reply_slice(&b, 2, 3), b"234");
    assert_eq!(reply_slice(&b, -4, 3), b"012");
    assert_eq!(reply_slice(&b, 8, 100), b"89");
    assert_eq!(reply_slice(&b, 10, 1), b"");
    assert_eq!(reply_slice(&b, i64::MAX, u32::MAX), b"");
}

#[test]
fn blobs_are_cached_by_checksum_or_document() {
    assert_eq!(
        cache_key("ws", 7, &Some("sha256/abc".to_string())),
        "sha256/abc"
    );
    assert_eq!(cache_key("ws", 7, &None), "ws/7");
}

#[test]
fn least_recently_used_blobs_go_first() {
    let mut c = Lru::new(0);
    let third = MIN_BUDGET / 3;
    for (k, v) in [("a", 1u8), ("b", 2), ("c", 3)] {
        assert!(c.can_put(k, &blob(third, v)));
        c.put(k.to_string(), blob(third, v));
    }
    // a was used last, so b goes
    assert_eq!(c.get("a").unwrap()[0], 1);
    c.put("d".to_string(), blob(third, 4));
    assert!(c.get("b").is_none());
    assert!(c.get("a").is_some() && c.get("c").is_some() && c.get("d").is_some());
    // what is there already is not replaced
    assert!(c.can_put("a", &blob(1, 9)));
    c.put("a".to_string(), blob(1, 9));
    assert_eq!(c.get("a").unwrap().len(), third);
}

#[test]
fn a_blob_over_the_budget_stays_alone() {
    let mut c = Lru::new(1);
    c.put("small".to_string(), blob(10, 1));
    c.put("huge".to_string(), blob(MIN_BUDGET + 1, 2));
    assert!(c.get("small").is_none());
    assert_eq!(c.get("huge").unwrap().len(), MIN_BUDGET + 1);
}

#[test]
fn one_download_serves_all_readers() {
    let mut s = BlobStore::new(0);
    match s.read("k", "ws", 5, pending(0, 2, 1)) {
        ReadStep::Fetch(job) => {
            assert_eq!(
                (job.key.as_str(), job.workspace_id.as_str(), job.doc_id),
                ("k", "ws", 5)
            );
        }
        _ => panic!("expected a download"),
    }
    assert!(matches!(
        s.read("k", "ws", 5, pending(2, 9, 2)),
        ReadStep::Wait
    ));
    let data = Arc::new(b"abcd".to_vec());
    assert!(s.can_take("k", &data));
    let answers = s.fetched("k", Some(data));
    let got: Vec<(u64, Option<Vec<u8>>)> =
        answers.into_iter().map(|a| (a.reply, a.data)).collect();
    assert_eq!(
        got,
        vec![(1, Some(b"ab".to_vec())), (2, Some(b"cd".to_vec()))]
    );
    // now from the cache
    assert!(
        matches!(s.read("k", "ws", 5, pending(1, 2, 3)), ReadStep::Data(d) if d == b"bc")
    );
    assert!(s.fetched("k", None).is_empty());
}

#[test]
fn failed_downloads_answer_with_errors_and_are_tried_again() {
    let mut s = BlobStore::new(0);
    s.read("k", "ws", 5, pending(0, 2, 8));
    let answers = s.fetched("k", None);
    assert_eq!(answers.len(), 1);
    assert_eq!((answers[0].reply, &answers[0].data), (8, &None));
    assert!(matches!(
        s.read("k", "ws", 5, pending(0, 2, 9)),
        ReadStep::Fetch(_)
    ));
}
