use objstore::put::{
    handle_abort_multipart_upload, handle_complete_multipart_upload, handle_create_multipart_upload,
    handle_delete, handle_put, handle_put_part,
};
use objstore::codec::uuid_hex;
use objstore::hashing::hash_bytes;
use objstore::model::{ObjectVersionData, ObjectVersionState};
use objstore::store::Store;
use objstore::{Config, Error, Uuid};

fn cfg(block_size: usize, inline_threshold: usize) -> Config {
    Config { block_size, inline_threshold }
}

fn msg(e: &Error) -> &str {
    e.message().as_str()
}

#[test]
fn s1_small_put_is_inline() {
    let mut store = Store::new();
    let c = cfg(4096, 3072);
    let uuid: Uuid = [0x11u8; 32];
    let r = handle_put(
        &mut store,
        &c,
        "bkt",
        "key",
        "text/plain".to_string(),
        b"hello".to_vec(),
        uuid,
        1000,
    );
    assert_eq!(r.ok(), Some(uuid));
    let o = store.object_get("bkt", "key").expect("object");
    let vs = o.versions();
    assert_eq!(vs.len(), 1);
    let v = &vs[0];
    assert_eq!(v.uuid, uuid);
    assert_eq!(v.timestamp, 1000);
    assert_eq!(v.size, 5);
    assert!(matches!(v.state, ObjectVersionState::Complete));
    match &v.data {
        ObjectVersionData::Inline(b) => assert_eq!(b.as_slice(), b"hello"),
        _ => panic!("expected inline data"),
    }
    assert_eq!(store.versions_count(), 0);
    assert_eq!(store.block_refs_count(), 0);
    assert_eq!(store.blocks_count(), 0);
    let resp = objstore::codec::put_response(&uuid);
    let mut expected = "11".repeat(32);
    expected.push('\n');
    assert_eq!(resp, expected);
}

#[test]
fn s2_large_put_writes_blocks() {
    let mut store = Store::new();
    let c = cfg(4, 2);
    let uuid: Uuid = [0x22u8; 32];
    let r = handle_put(
        &mut store,
        &c,
        "bkt",
        "key",
        "blob".to_string(),
        b"ABCDEFGHIJ".to_vec(),
        uuid,
        7,
    );
    assert_eq!(r.ok(), Some(uuid));
    let h1 = hash_bytes(b"ABCD");
    let h2 = hash_bytes(b"EFGH");
    let h3 = hash_bytes(b"IJ");
    let o = store.object_get("bkt", "key").expect("object");
    let v = &o.versions()[0];
    assert_eq!(v.size, 10);
    assert!(matches!(v.state, ObjectVersionState::Complete));
    match &v.data {
        ObjectVersionData::FirstBlock(h) => assert_eq!(*h, h1),
        _ => panic!("expected first-block data"),
    }
    let record = store.version_get(&uuid).expect("version record");
    let blocks = record.blocks();
    assert_eq!(blocks.len(), 3);
    let expected = [(1u64, 0u64, h1, 4u64), (1, 4, h2, 4), (1, 8, h3, 2)];
    for (b, (part, off, h, size)) in blocks.iter().zip(expected.iter()) {
        assert_eq!(b.part_number, *part);
        assert_eq!(b.offset, *off);
        assert_eq!(b.hash, *h);
        assert_eq!(b.size, *size);
    }
    assert_eq!(store.block_refs_count(), 3);
    assert_eq!(store.blocks_count(), 3);
    assert!(store.block_ref_exists(&h1, &uuid));
    assert!(store.block_ref_exists(&h2, &uuid));
    assert!(store.block_ref_exists(&h3, &uuid));
    assert_eq!(store.block_bytes(&h1).map(|b| b.as_slice()), Some(&b"ABCD"[..]));
    assert_eq!(store.block_bytes(&h3).map(|b| b.as_slice()), Some(&b"IJ"[..]));
}

#[test]
fn s3_multipart_happy_path() {
    let mut store = Store::new();
    let c = cfg(4096, 3072);
    let upload: Uuid = [0x33u8; 32];
    let id = handle_create_multipart_upload(&mut store, "bkt", "key", "blob".to_string(), upload, 50);
    assert_eq!(id, upload);
    let hex_id = uuid_hex(&upload);
    assert_eq!(hex_id.len(), 64);
    let r2 = handle_put_part(&mut store, &c, "bkt", "key", "2", &hex_id, b"world".to_vec());
    assert!(r2.is_ok());
    let r1 = handle_put_part(&mut store, &c, "bkt", "key", "1", &hex_id, b"hello".to_vec());
    assert!(r1.is_ok());
    let rc = handle_complete_multipart_upload(&mut store, "bkt", "key", &hex_id);
    assert!(rc.is_ok());
    let o = store.object_get("bkt", "key").expect("object");
    let v = o.find_version_ref(&upload).expect("version");
    assert_eq!(v.size, 10);
    assert!(matches!(v.state, ObjectVersionState::Complete));
    match &v.data {
        ObjectVersionData::FirstBlock(h) => assert_eq!(*h, hash_bytes(b"hello")),
        _ => panic!("expected first-block data"),
    }
    let record = store.version_get(&upload).expect("record");
    let blocks = record.blocks();
    assert_eq!(blocks.len(), 2);
    assert_eq!(blocks[0].part_number, 1);
    assert_eq!(blocks[0].offset, 0);
    assert_eq!(blocks[0].hash, hash_bytes(b"hello"));
    assert_eq!(blocks[1].part_number, 2);
    assert_eq!(blocks[1].offset, 0);
    assert_eq!(blocks[1].hash, hash_bytes(b"world"));
}

#[test]
fn s4_abort_then_complete_fails() {
    let mut store = Store::new();
    let c = cfg(4096, 3072);
    let upload: Uuid = [0x44u8; 32];
    handle_create_multipart_upload(&mut store, "bkt", "key", "blob".to_string(), upload, 50);
    let hex_id = uuid_hex(&upload);
    assert!(handle_put_part(&mut store, &c, "bkt", "key", "1", &hex_id, b"data".to_vec()).is_ok());
    assert!(handle_abort_multipart_upload(&mut store, "bkt", "key", &hex_id).is_ok());
    let o = store.object_get("bkt", "key").expect("object");
    let v = o.find_version_ref(&upload).expect("version");
    assert!(matches!(v.state, ObjectVersionState::Aborted));
    let rc = handle_complete_multipart_upload(&mut store, "bkt", "key", &hex_id);
    match rc {
        Err(e) => assert_eq!(
            msg(&e),
            "Multipart upload does not exist or has already been completed"
        ),
        Ok(_) => panic!("complete after abort must fail"),
    }
}

#[test]
fn s5_delete_over_nothing() {
    let mut store = Store::new();
    let marker: Uuid = [0x55u8; 32];
    let r = handle_delete(&mut store, "bkt", "never", marker, 123);
    assert_eq!(r, [0u8; 32]);
    assert_eq!(store.objects_count(), 0);
}

#[test]
fn s6_delete_marker_postdates_versions() {
    let mut store = Store::new();
    let c = cfg(4096, 3072);
    let u1: Uuid = [0x61u8; 32];
    let u2: Uuid = [0x62u8; 32];
    let marker: Uuid = [0x63u8; 32];
    assert!(handle_put(&mut store, &c, "bkt", "key", "blob".to_string(), b"one".to_vec(), u1, 100)
        .is_ok());
    assert!(handle_put(&mut store, &c, "bkt", "key", "blob".to_string(), b"two".to_vec(), u2, 200)
        .is_ok());
    let r = handle_delete(&mut store, "bkt", "key", marker, 150);
    assert_eq!(r, marker);
    let o = store.object_get("bkt", "key").expect("object");
    let m = o.find_version_ref(&marker).expect("marker");
    assert_eq!(m.timestamp, 201);
    assert_eq!(m.size, 0);
    assert!(matches!(m.state, ObjectVersionState::Complete));
    assert!(matches!(m.data, ObjectVersionData::DeleteMarker));
    assert_eq!(m.mime_type, "application/x-delete-marker");
}

#[test]
fn complete_version_survives_later_uploads() {
    let mut store = Store::new();
    let c = cfg(4096, 3072);
    let u1: Uuid = [0x71u8; 32];
    let u2: Uuid = [0x72u8; 32];
    assert!(handle_put(&mut store, &c, "bkt", "key", "blob".to_string(), b"aaa".to_vec(), u1, 10)
        .is_ok());
    handle_create_multipart_upload(&mut store, "bkt", "key", "blob".to_string(), u2, 20);
    let o = store.object_get("bkt", "key").expect("object");
    let v1 = o.find_version_ref(&u1).expect("first version");
    assert!(matches!(v1.state, ObjectVersionState::Complete));
    let v2 = o.find_version_ref(&u2).expect("second version");
    assert!(matches!(v2.state, ObjectVersionState::Uploading));
}

#[test]
fn put_empty_body_is_rejected() {
    let mut store = Store::new();
    let c = cfg(4096, 3072);
    let uuid: Uuid = [0x81u8; 32];
    let r = handle_put(&mut store, &c, "bkt", "key", "blob".to_string(), Vec::new(), uuid, 5);
    match r {
        Err(e) => assert_eq!(msg(&e), "Empty body"),
        Ok(_) => panic!("empty body must fail"),
    }
    assert_eq!(store.objects_count(), 0);
}

#[test]
fn put_part_error_precedence() {
    let mut store = Store::new();
    let c = cfg(4096, 3072);
    let hex_id = uuid_hex(&[0x99u8; 32]);
    let e = handle_put_part(&mut store, &c, "b", "k", "zero", &hex_id, b"x".to_vec()).unwrap_err();
    assert_eq!(msg(&e), "Invalid part number");
    let e = handle_put_part(&mut store, &c, "b", "k", "0", &hex_id, b"x".to_vec()).unwrap_err();
    assert_eq!(msg(&e), "Invalid part number");
    let e = handle_put_part(&mut store, &c, "b", "k", "1", "nothex", b"x".to_vec()).unwrap_err();
    assert_eq!(msg(&e), "Invalid upload ID");
    let e = handle_put_part(&mut store, &c, "b", "k", "1", &hex_id, Vec::new()).unwrap_err();
    assert_eq!(msg(&e), "Empty body");
    let e = handle_put_part(&mut store, &c, "b", "k", "1", &hex_id, b"x".to_vec()).unwrap_err();
    assert_eq!(msg(&e), "Object not found");
    let u1: Uuid = [0x9au8; 32];
    assert!(handle_put(&mut store, &c, "b", "k", "blob".to_string(), b"v".to_vec(), u1, 1).is_ok());
    let e = handle_put_part(&mut store, &c, "b", "k", "1", &hex_id, b"x".to_vec()).unwrap_err();
    assert_eq!(msg(&e), "Multipart upload does not exist or is otherwise invalid");
}

#[test]
fn complete_without_parts_reports_missing_version() {
    let mut store = Store::new();
    let upload: Uuid = [0xa1u8; 32];
    handle_create_multipart_upload(&mut store, "bkt", "key", "blob".to_string(), upload, 9);
    let hex_id = uuid_hex(&upload);
    let e = handle_complete_multipart_upload(&mut store, "bkt", "key", &hex_id).unwrap_err();
    assert_eq!(msg(&e), "Version not found");
}
