use kicad_cdb::content_hash::{
    backfill_hash, compute_content_hash, fnv1a_64, sync_action, sync_decide, sync_items, sync_record, SyncAction, SyncItem,
    SyncResult,
};

#[test]
fn test_content_hash_deterministic() {
    let json = r#"{"mpn":"TEST","pins":[]}"#;
    let h1 = compute_content_hash(json);
    let h2 = compute_content_hash(json);
    assert_eq!(h1, h2);
    assert_eq!(h1.len(), 16);
}

#[test]
fn test_content_hash_differs_for_different_input() {
    let h1 = compute_content_hash(r#"{"mpn":"A"}"#);
    let h2 = compute_content_hash(r#"{"mpn":"B"}"#);
    assert_ne!(h1, h2);
}

#[test]
fn fnv1a_known_values() {
    assert_eq!(fnv1a_64(b""), 0xcbf29ce484222325);
    assert_eq!(fnv1a_64(b"a"), 0xaf63dc4c8601ec8c);
    assert_eq!(fnv1a_64(b"foobar"), 0x85944171f73967e8);
}

#[test]
fn content_hash_is_hex_of_fnv_over_trimmed_text() {
    assert_eq!(compute_content_hash(""), "cbf29ce484222325");
    assert_eq!(compute_content_hash("a"), "af63dc4c8601ec8c");
    assert_eq!(compute_content_hash("  a\n\t"), "af63dc4c8601ec8c");
    assert_eq!(compute_content_hash("\u{3000}foobar\u{a0}"), "85944171f73967e8");
    let h = compute_content_hash("{\"mpn\":\"X\"}");
    assert_eq!(h.len(), 16);
    assert!(h.chars().all(|c| c.is_ascii_hexdigit() && !c.is_ascii_uppercase()));
}

#[test]
fn content_hash_zero_pads_to_sixteen_digits() {
    for s in ["", "x", "yy", "some longer text", "é"] {
        let h = compute_content_hash(s);
        assert_eq!(h.len(), 16);
        assert_eq!(h, format!("{:016x}", fnv1a_64(s.trim().as_bytes())));
    }
}

#[test]
fn sync_action_cases() {
    assert_eq!(sync_action("", None, "0123456789abcdef"), SyncAction::MissingMpn);
    assert_eq!(sync_action("", Some(Some("0123456789abcdef")), "0123456789abcdef"), SyncAction::MissingMpn);
    assert_eq!(sync_action("LM317", None, "0123456789abcdef"), SyncAction::Insert);
    assert_eq!(sync_action("LM317", Some(Some("0123456789abcdef")), "0123456789abcdef"), SyncAction::Unchanged);
    assert_eq!(sync_action("LM317", Some(Some("ffffffffffffffff")), "0123456789abcdef"), SyncAction::Update);
    assert_eq!(sync_action("LM317", Some(None), "0123456789abcdef"), SyncAction::Update);
    assert_eq!(sync_action("LM317", Some(None), ""), SyncAction::Unchanged);
}

#[test]
fn sync_result_records() {
    let mut r = SyncResult::new();
    r.record_new("A1");
    r.record_updated("B2");
    r.record_unchanged();
    r.record_unchanged();
    r.record_missing_mpn(42);
    r.record_import_error("C3", "bad pins");
    assert_eq!(r.new_count, 1);
    assert_eq!(r.updated_count, 1);
    assert_eq!(r.unchanged_count, 2);
    assert_eq!(r.new_mpns, vec!["A1".to_string()]);
    assert_eq!(r.updated_mpns, vec!["B2".to_string()]);
    assert_eq!(r.errors, vec!["Missing mpn in item: 42".to_string(), "C3: bad pins".to_string()]);
}

#[test]
fn backfill_hash_uses_id_and_mpn() {
    assert_eq!(backfill_hash(7, "LM317"), compute_content_hash("7:LM317"));
    assert_eq!(backfill_hash(-12, "X"), compute_content_hash("-12:X"));
    assert_eq!(backfill_hash(i64::MIN, "Y"), compute_content_hash(&format!("{}:Y", i64::MIN)));
    assert_ne!(backfill_hash(1, "A"), backfill_hash(2, "A"));
}

#[test]
fn sync_items_reads_fields_and_reserialises_each_item() {
    let items = sync_items(r#"[ {"mpn": "LM317", "manufacturer": "TI", "description": "reg", "package": 5},
        {"pins": []} ]"#)
    .unwrap();
    assert_eq!(items.len(), 2);
    assert_eq!(items[0].mpn.as_deref(), Some("LM317"));
    assert_eq!(items[0].manufacturer.as_deref(), Some("TI"));
    assert_eq!(items[0].description.as_deref(), Some("reg"));
    assert_eq!(items[0].package, None);
    let v: serde_json::Value = serde_json::from_str(&items[0].text).unwrap();
    assert_eq!(v["mpn"], "LM317");
    assert!(!items[0].text.contains(' '));
    assert_eq!(items[1].mpn, None);
    assert_eq!(items[1].text, r#"{"pins":[]}"#);
}

#[test]
fn sync_items_rejects_text_that_is_not_an_array() {
    assert_eq!(sync_items("{\"mpn\":\"A\"}").err().as_deref(), Some("Failed to parse sync JSON array"));
    assert_eq!(sync_items("not json").err().as_deref(), Some("Failed to parse sync JSON array"));
    assert_eq!(sync_items("[]").unwrap().len(), 0);
}

fn item(mpn: Option<&str>, text: &str) -> SyncItem {
    SyncItem {
        mpn: mpn.map(|m| m.to_string()),
        manufacturer: None,
        text: text.to_string(),
        description: None,
        package: None,
    }
}

#[test]
fn sync_decide_hashes_the_item_text() {
    let it = item(Some("LM317"), r#"{"mpn":"LM317"}"#);
    let h = compute_content_hash(r#"{"mpn":"LM317"}"#);
    let (a, hash) = sync_decide(&it, None);
    assert_eq!(a, SyncAction::Insert);
    assert_eq!(hash, h);
    assert_eq!(sync_decide(&it, Some(Some(h.as_str()))).0, SyncAction::Unchanged);
    assert_eq!(sync_decide(&it, Some(Some("0000000000000000"))).0, SyncAction::Update);
    assert_eq!(sync_decide(&it, Some(None)).0, SyncAction::Update);
    assert_eq!(sync_decide(&item(None, "{}"), None).0, SyncAction::MissingMpn);
    assert_eq!(sync_decide(&item(Some(""), "{}"), Some(None)).0, SyncAction::MissingMpn);
}

#[test]
fn sync_record_accounts_for_every_item_once() {
    let mut r = SyncResult::new();
    let a = item(Some("A1"), "{}");
    let none = item(None, r#"{"x":"é"}"#);
    sync_record(&mut r, &a, SyncAction::Insert, None);
    sync_record(&mut r, &a, SyncAction::Update, None);
    sync_record(&mut r, &a, SyncAction::Unchanged, None);
    sync_record(&mut r, &none, SyncAction::MissingMpn, None);
    sync_record(&mut r, &a, SyncAction::Insert, Some("bad pins"));
    assert_eq!(r.new_count + r.updated_count + r.unchanged_count + r.errors.len(), 5);
    assert_eq!(r.new_mpns, vec!["A1".to_string()]);
    assert_eq!(r.updated_mpns, vec!["A1".to_string()]);
    assert_eq!(r.unchanged_count, 1);
    assert_eq!(r.errors, vec!["Missing mpn in item: 10".to_string(), "A1: bad pins".to_string()]);
}

#[test]
fn sync_record_keeps_the_mpn_lists_in_step_with_the_counts() {
    let mut r = SyncResult::new();
    let a = item(Some("A1"), "{}");
    let b = item(Some("B2"), "{}");
    sync_record(&mut r, &a, SyncAction::Insert, None);
    sync_record(&mut r, &b, SyncAction::Unchanged, None);
    sync_record(&mut r, &b, SyncAction::Update, None);
    sync_record(&mut r, &b, SyncAction::Insert, Some("dup"));
    sync_record(&mut r, &item(None, "{}"), SyncAction::MissingMpn, None);
    sync_record(&mut r, &b, SyncAction::Insert, None);
    assert_eq!(r.new_mpns, vec!["A1".to_string(), "B2".to_string()]);
    assert_eq!(r.new_mpns.len(), r.new_count);
    assert_eq!(r.updated_mpns, vec!["B2".to_string()]);
    assert_eq!(r.updated_mpns.len(), r.updated_count);
    assert_eq!(r.errors.len(), 2);
}
