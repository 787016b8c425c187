use forgedb_db::db::Database;
use forgedb_db::links::{link_body, link_of_body};
use forgedb_db::records::{Metric, Post, Tag, User};

fn user(id: u128, email: &str) -> User {
    User { id, name: "n".to_string(), email: email.to_string(), created_at: 5_000 }
}

fn post(id: u128, author: u128, views: u64) -> Post {
    Post { id, title: "a title".to_string(), views, published: true, author, created_at: 7_000 }
}

fn metric(id: u128, device_id: u64) -> Metric {
    Metric {
        id,
        recorded_at: 1_000,
        device_id,
        sample_seq: 1,
        region: 2,
        cpu_pct_bits: 0,
        mem_pct_bits: 0,
        disk_pct_bits: 0,
        net_rx_bytes: 0,
        net_tx_bytes: 0,
        req_count: 0,
        err_count: 0,
        p50_micros: 0,
        p95_micros: 0,
        p99_micros: 0,
        open_conns: 0,
        queue_depth: 0,
        gc_pause_micros: 0,
        uptime_secs: 0,
        temp_celsius_bits: 0,
        throttled: false,
        healthy: true,
    }
}

#[test]
fn lookups_by_unique_and_plain_keys() {
    let mut db = Database::new();
    db.create_user(user(1, "a@x.com")).unwrap();
    db.create_user(user(2, "b@x.com")).unwrap();
    let w = db.user.row_count();
    assert_eq!(db.user.find_by_email("b@x.com"), vec![1]);
    assert_eq!(db.user.get_by_email("a@x.com"), Some(0));
    assert_eq!(db.user.get_by_email("c@x.com"), None);
    db.update_user(2, user(2, "c@x.com")).unwrap();
    assert_eq!(db.user.get_by_email("b@x.com"), None);
    assert_eq!(db.user.get_by_email("c@x.com"), Some(2));
    assert_eq!(db.user.get_by_email_at(w, "b@x.com"), None);
    assert_eq!(db.user.find_by_email_at(w, "c@x.com"), Vec::<usize>::new());
    assert_eq!(db.user.get_at(w, 2), Some(1));
    assert_eq!(db.user.get_at(db.user.row_count(), 2), Some(2));
    assert_eq!(db.user.all_at(w), vec![0, 1]);
    assert_eq!(db.user.export_live_indices(), vec![0, 2]);

    db.create_post(post(10, 1, 5)).unwrap();
    db.create_post(post(11, 1, 9)).unwrap();
    db.create_post(post(12, 2, 5)).unwrap();
    let mut by_author = db.post.find_by_author(1);
    by_author.sort();
    assert_eq!(by_author, vec![0, 1]);
    let mut five = db.post.find_by_views(5);
    five.sort();
    assert_eq!(five, vec![0, 2]);
    assert_eq!(db.post.find_by_views_range(Some(6), None, false, None), vec![1]);
    assert_eq!(db.post.find_by_views_range(Some(9), Some(5), false, None), Vec::<usize>::new());

    db.create_tag(Tag { id: 20, name: "rust".to_string() }).unwrap();
    assert_eq!(db.tag.get_by_name("rust"), Some(0));
    assert_eq!(db.tag.find_by_name("go"), Vec::<usize>::new());
    assert_eq!(db.tag.get_by_name_at(0, "rust"), None);

    db.create_metric(metric(30, 4)).unwrap();
    db.create_metric(metric(31, 8)).unwrap();
    assert_eq!(db.metric.find_by_device_id(8), vec![1]);
    assert_eq!(db.metric.find_by_device_id_range(None, None, true, Some(1)), vec![1]);
    assert_eq!(db.metric.find_by_device_id_at(1, 8), Vec::<usize>::new());
    assert_eq!(db.post.find_by_author_at(2, 2), Vec::<usize>::new());
    assert_eq!(db.post.find_by_views_at(3, 9), vec![1]);
    assert_eq!(db.tag.find_by_name_at(1, "rust"), vec![0]);
}

#[test]
fn relations_follow_links_and_snapshots() {
    let mut db = Database::new();
    db.create_user(user(1, "a@x.com")).unwrap();
    db.create_post(post(10, 1, 5)).unwrap();
    db.create_tag(Tag { id: 20, name: "rust".to_string() }).unwrap();
    db.create_tag(Tag { id: 21, name: "verus".to_string() }).unwrap();
    let snap = db.snapshot();
    db.link_post_tag(10, 21);
    db.link_post_tag(10, 20);
    db.link_post_tag(10, 99);
    assert_eq!(db.post_tags(10), vec![1, 0]);
    assert_eq!(db.tag_posts(20), vec![0]);
    assert_eq!(db.post_tags_at(&snap, 10), Vec::<usize>::new());
    let later = db.snapshot();
    assert!(db.unlink_post_tag(10, 21));
    assert!(!db.unlink_post_tag(10, 21));
    assert_eq!(db.post_tags(10), vec![0]);
    assert_eq!(db.post_tags_at(&later, 10), vec![1, 0]);
    assert_eq!(db.user_posts(1), vec![0]);
    let p = post(11, 1, 1);
    assert_eq!(db.post_author(&p), Some(0));
    assert_eq!(db.post_author(&post(12, 7, 1)), None);
}

#[test]
fn link_bodies_round_trip() {
    let l: u128 = 0x0102_0304_0506_0708_090a_0b0c_0d0e_0f10;
    let r: u128 = 7;
    let b = link_body(l, r);
    assert_eq!(b.len(), 32);
    assert_eq!(&b[0..4], &[1, 2, 3, 4]);
    assert_eq!(b[31], 7);
    assert_eq!(link_of_body(&b), Some((l, r)));
    assert_eq!(link_of_body(&b[0..31].to_vec()), None);
}
