use fstore_core::content::content_hash_of;
use fstore_core::error::ErrorKind;
use fstore_core::model::Object;
use fstore_core::store::{ObjectStore, StoreOptions, SyncAction};
use fstore_core::Version;

fn new_store(archive_configured: bool) -> ObjectStore {
    ObjectStore::new(StoreOptions {
        version: Version {
            number: String::from("0.1.0"),
        },
        archive_configured,
    })
}

fn put(store: &mut ObjectStore, bucket_id: u128, bytes: &[u8]) -> Object {
    let part_id = store.get_part(None).unwrap();
    store.write_part(part_id, &bytes.to_vec()).unwrap();
    store.commit_part(bucket_id, part_id).unwrap()
}

#[test]
fn digest_of_known_bytes() {
    let hex = content_hash_of(&b"hello".to_vec());
    assert_eq!(hex, "000000310f923099");
    let hex = content_hash_of(&b"x".to_vec());
    assert_eq!(hex, "000000000002b61d");
}

#[test]
fn add_bucket_then_get_bucket_returns_it() {
    let mut store = new_store(false);
    let name = String::from("b");
    let created = store.add_bucket(&name).unwrap();
    let fetched = store.get_bucket(&name).unwrap();
    assert_eq!(fetched.name, "b");
    assert_eq!(fetched.id, created.id);
    assert_eq!(fetched.object_count, 0);
    assert_eq!(fetched.space_used, 0);
}

#[test]
fn get_bucket_unknown_is_not_found() {
    let store = new_store(false);
    let err = store.get_bucket(&String::from("missing")).unwrap_err();
    assert_eq!(err.kind, ErrorKind::NotFound);
}

#[test]
fn add_bucket_duplicate_name_is_invalid_input() {
    let mut store = new_store(false);
    let name = String::from("b");
    store.add_bucket(&name).unwrap();
    let err = store.add_bucket(&name).unwrap_err();
    assert_eq!(err.kind, ErrorKind::InvalidInput);
}

#[test]
fn commit_part_happy_path() {
    let mut store = new_store(false);
    let bucket = store.add_bucket(&String::from("b")).unwrap();
    let obj = put(&mut store, bucket.id, b"hello");
    assert_eq!(obj.size, 5);
    assert_eq!(obj.hash, "000000310f923099");
    assert_eq!(obj.media_type, "text");
    assert_eq!(obj.media_subtype, "plain");
    let bytes = store.get_object(obj.id).unwrap();
    assert_eq!(bytes, b"hello".to_vec());
    let fetched = store.get_bucket(&String::from("b")).unwrap();
    assert_eq!(fetched.object_count, 1);
    assert_eq!(fetched.space_used, 5);
}

#[test]
fn commit_part_binary_content_is_octet_stream() {
    let mut store = new_store(false);
    let bucket = store.add_bucket(&String::from("b")).unwrap();
    let obj = put(&mut store, bucket.id, &[0u8, 1, 2, 255]);
    assert_eq!(obj.media_type, "application");
    assert_eq!(obj.media_subtype, "octet-stream");
}

#[test]
fn commit_part_unknown_part_is_not_found() {
    let mut store = new_store(false);
    let bucket = store.add_bucket(&String::from("b")).unwrap();
    let err = store.commit_part(bucket.id, 12345).unwrap_err();
    assert_eq!(err.kind, ErrorKind::NotFound);
}

#[test]
fn commit_part_unknown_bucket_is_not_found() {
    let mut store = new_store(false);
    let part_id = store.get_part(None).unwrap();
    let err = store.commit_part(999, part_id).unwrap_err();
    assert_eq!(err.kind, ErrorKind::NotFound);
}

#[test]
fn write_part_appends() {
    let mut store = new_store(false);
    let bucket = store.add_bucket(&String::from("b")).unwrap();
    let part_id = store.get_part(None).unwrap();
    store.write_part(part_id, &b"hel".to_vec()).unwrap();
    store.write_part(part_id, &b"lo".to_vec()).unwrap();
    let obj = store.commit_part(bucket.id, part_id).unwrap();
    assert_eq!(obj.size, 5);
    assert_eq!(store.get_object(obj.id).unwrap(), b"hello".to_vec());
}

#[test]
fn write_part_unknown_is_not_found() {
    let mut store = new_store(false);
    let err = store.write_part(7, &b"a".to_vec()).unwrap_err();
    assert_eq!(err.kind, ErrorKind::NotFound);
}

#[test]
fn dedup_across_buckets() {
    let mut store = new_store(false);
    let a = store.add_bucket(&String::from("a")).unwrap();
    let b = store.add_bucket(&String::from("b")).unwrap();
    let oa = put(&mut store, a.id, b"x");
    let ob = put(&mut store, b.id, b"x");
    assert_ne!(oa.id, ob.id);
    assert_eq!(oa.hash, ob.hash);
    assert_eq!(oa.size, ob.size);
    assert_eq!(oa.media_type, ob.media_type);
    assert_eq!(oa.media_subtype, ob.media_subtype);
    let totals = store.get_totals().unwrap();
    assert_eq!(totals.buckets, 2);
    assert_eq!(totals.objects, 2);
    assert_eq!(totals.space_used, 2);
}

#[test]
fn empty_store_totals() {
    let store = new_store(false);
    let totals = store.get_totals().unwrap();
    assert_eq!(totals.buckets, 0);
    assert_eq!(totals.objects, 0);
    assert_eq!(totals.space_used, 0);
}

#[test]
fn prune_reclaims_orphans() {
    let mut store = new_store(false);
    let bucket = store.add_bucket(&String::from("t")).unwrap();
    let obj = put(&mut store, bucket.id, b"data");
    store.remove_bucket(bucket.id).unwrap();
    let removed = store.prune().unwrap();
    assert_eq!(removed.len(), 1);
    assert_eq!(removed[0].id, obj.id);
    let err = store.get_object(obj.id).unwrap_err();
    assert_eq!(err.kind, ErrorKind::NotFound);
    assert_eq!(store.get_totals().unwrap().objects, 0);
}

#[test]
fn prune_twice_second_is_empty_no_op() {
    let mut store = new_store(false);
    let bucket = store.add_bucket(&String::from("t")).unwrap();
    put(&mut store, bucket.id, b"data");
    let keep = store.add_bucket(&String::from("keep")).unwrap();
    let kept = put(&mut store, keep.id, b"kept");
    store.remove_bucket(bucket.id).unwrap();
    let first = store.prune().unwrap();
    assert_eq!(first.len(), 1);
    let blobs_before: Vec<(u128, Vec<u8>)> = store.fs.blobs.clone();
    let second = store.prune().unwrap();
    assert!(second.is_empty());
    assert_eq!(store.fs.blobs, blobs_before);
    assert_eq!(store.get_object(kept.id).unwrap(), b"kept".to_vec());
}

#[test]
fn remove_object_returns_row_and_keeps_blob_until_prune() {
    let mut store = new_store(false);
    let bucket = store.add_bucket(&String::from("b")).unwrap();
    let obj = put(&mut store, bucket.id, b"abc");
    let removed = store.remove_object(bucket.id, obj.id).unwrap();
    assert_eq!(removed.id, obj.id);
    assert_eq!(removed.hash, obj.hash);
    assert!(store.get_object(obj.id).is_ok());
    let err = store.remove_object(bucket.id, obj.id).unwrap_err();
    assert_eq!(err.kind, ErrorKind::NotFound);
}

#[test]
fn remove_objects_reports_membership() {
    let mut store = new_store(false);
    let bucket = store.add_bucket(&String::from("b")).unwrap();
    let obj = put(&mut store, bucket.id, b"abc");
    let report = store.remove_objects(bucket.id, &vec![obj.id, 42]).unwrap();
    assert_eq!(report.removed, vec![obj.id]);
    assert_eq!(report.not_found, vec![42]);
    let fetched = store.get_bucket(&String::from("b")).unwrap();
    assert_eq!(fetched.object_count, 0);
}

#[test]
fn get_object_metadata_unknown_is_not_found() {
    let mut store = new_store(false);
    let bucket = store.add_bucket(&String::from("b")).unwrap();
    let err = store.get_object_metadata(bucket.id, 42).unwrap_err();
    assert_eq!(err.kind, ErrorKind::NotFound);
    let err = store.get_object_metadata(43, 42).unwrap_err();
    assert_eq!(err.kind, ErrorKind::NotFound);
}

#[test]
fn get_object_metadata_returns_row() {
    let mut store = new_store(false);
    let bucket = store.add_bucket(&String::from("b")).unwrap();
    let obj = put(&mut store, bucket.id, b"abc");
    let row = store.get_object_metadata(bucket.id, obj.id).unwrap();
    assert_eq!(row.id, obj.id);
    assert_eq!(row.hash, obj.hash);
    assert_eq!(row.size, 3);
}

#[test]
fn get_all_objects_and_get_objects() {
    let mut store = new_store(false);
    let bucket = store.add_bucket(&String::from("b")).unwrap();
    let o1 = put(&mut store, bucket.id, b"one");
    let o2 = put(&mut store, bucket.id, b"two");
    let all = store.get_all_objects(bucket.id).unwrap();
    assert_eq!(all.len(), 2);
    assert_eq!(all[0].id, o1.id);
    assert_eq!(all[1].id, o2.id);
    let some = store.get_objects(bucket.id, &vec![o2.id, 999]).unwrap();
    assert_eq!(some.len(), 1);
    assert_eq!(some[0].id, o2.id);
}

#[test]
fn clone_bucket_shares_objects() {
    let mut store = new_store(false);
    let original = store.add_bucket(&String::from("orig")).unwrap();
    let obj = put(&mut store, original.id, b"shared");
    let copy = store
        .clone_bucket(original.id, &String::from("copy"))
        .unwrap();
    assert_ne!(copy.id, original.id);
    assert_eq!(copy.object_count, 1);
    let members = store.get_all_objects(copy.id).unwrap();
    assert_eq!(members.len(), 1);
    assert_eq!(members[0].id, obj.id);
}

#[test]
fn rename_bucket_changes_lookup() {
    let mut store = new_store(false);
    let bucket = store.add_bucket(&String::from("old_name")).unwrap();
    store
        .rename_bucket(bucket.id, &String::from("new_name"))
        .unwrap();
    assert_eq!(
        store
            .get_bucket(&String::from("old_name"))
            .unwrap_err()
            .kind,
        ErrorKind::NotFound
    );
    assert_eq!(store.get_bucket(&String::from("new_name")).unwrap().id, bucket.id);
    let other = store.add_bucket(&String::from("taken")).unwrap();
    let err = store
        .rename_bucket(bucket.id, &String::from("taken"))
        .unwrap_err();
    assert_eq!(err.kind, ErrorKind::InvalidInput);
    assert_eq!(store.get_bucket(&String::from("taken")).unwrap().id, other.id);
}

#[test]
fn object_count_matches_stream() {
    let mut store = new_store(false);
    let bucket = store.add_bucket(&String::from("b")).unwrap();
    put(&mut store, bucket.id, b"one");
    put(&mut store, bucket.id, b"two");
    put(&mut store, bucket.id, b"three");
    let all_time = i64::MAX;
    let count = store.get_object_count(all_time);
    let stream = store.stream_objects(all_time);
    assert_eq!(count as usize, stream.len());
    assert_eq!(count, 3);
    let before_any = 0;
    assert_eq!(
        store.get_object_count(before_any) as usize,
        store.stream_objects(before_any).len()
    );
    assert_eq!(store.get_object_count(before_any), 0);
}

#[test]
fn check_detects_and_recovers_from_corruption() {
    let mut store = new_store(false);
    let bucket = store.add_bucket(&String::from("b")).unwrap();
    let obj = put(&mut store, bucket.id, b"precious");
    store.check().unwrap();
    store.run_check().unwrap();
    assert!(store.get_object_errors().unwrap().is_empty());

    let original = store.get_object(obj.id).unwrap();
    for pair in store.fs.blobs.iter_mut() {
        if pair.0 == obj.id {
            pair.1.clear();
        }
    }
    store.check().unwrap();
    store.run_check().unwrap();
    let errors = store.get_object_errors().unwrap();
    assert_eq!(errors.len(), 1);
    assert_eq!(errors[0].object_id, obj.id);
    assert!(errors[0].messages[0].contains("hash mismatch"));

    for pair in store.fs.blobs.iter_mut() {
        if pair.0 == obj.id {
            pair.1 = original.clone();
        }
    }
    store.check().unwrap();
    store.run_check().unwrap();
    assert!(store.get_object_errors().unwrap().is_empty());
}

#[test]
fn check_reports_missing_blob() {
    let mut store = new_store(false);
    let bucket = store.add_bucket(&String::from("b")).unwrap();
    let obj = put(&mut store, bucket.id, b"gone");
    store.fs.blobs.retain(|pair| pair.0 != obj.id);
    store.check().unwrap();
    store.run_check().unwrap();
    let errors = store.get_object_errors().unwrap();
    assert_eq!(errors.len(), 1);
    assert_eq!(errors[0].object_id, obj.id);
    assert!(errors[0].messages[0].contains("missing"));
}

#[test]
fn second_concurrent_check_is_busy() {
    let mut store = new_store(false);
    let first = store.check().unwrap();
    assert_eq!(first.completed, 0);
    let err = store.check().unwrap_err();
    assert_eq!(err.kind, ErrorKind::Busy);
    store.run_check().unwrap();
    assert!(store.check().is_ok());
}

#[test]
fn check_and_archive_run_concurrently() {
    let mut store = new_store(true);
    assert!(store.check().is_ok());
    assert!(store.archive().is_ok());
    let err = store.archive().unwrap_err();
    assert_eq!(err.kind, ErrorKind::Busy);
    store.run_check().unwrap();
    store.run_archive().unwrap();
}

#[test]
fn archive_without_location_is_internal() {
    let mut store = new_store(false);
    let err = store.archive().unwrap_err();
    assert_eq!(err.kind, ErrorKind::Internal);
}

#[test]
fn archive_mirrors_snapshot_and_writes_dump() {
    let mut store = new_store(true);
    let a = store.add_bucket(&String::from("a")).unwrap();
    let b = store.add_bucket(&String::from("b")).unwrap();
    let o1 = put(&mut store, a.id, b"one");
    let o2 = put(&mut store, a.id, b"two");
    let o3 = put(&mut store, b.id, b"three");
    let progress = store.archive().unwrap();
    assert_eq!(progress.total, 3);
    let result = store.run_archive().unwrap();
    assert_eq!(result.completed, 3);
    let mirror = store.archive.as_ref().unwrap();
    assert!(mirror.dump_taken);
    assert_eq!(mirror.blobs.len(), 3);
    for id in [o1.id, o2.id, o3.id] {
        let copied = mirror.blobs.iter().find(|pair| pair.0 == id).unwrap();
        let primary = store
            .fs
            .blobs
            .iter()
            .find(|pair| pair.0 == id)
            .unwrap();
        assert_eq!(copied.1, primary.1);
    }
}

#[test]
fn archive_twice_copies_nothing_the_second_time() {
    let mut store = new_store(true);
    let bucket = store.add_bucket(&String::from("b")).unwrap();
    put(&mut store, bucket.id, b"stable");
    store.archive().unwrap();
    store.run_archive().unwrap();
    let mirror_before = store.archive.as_ref().unwrap().blobs.clone();
    store.archive().unwrap();
    store.run_archive().unwrap();
    let mirror_after = &store.archive.as_ref().unwrap().blobs;
    assert_eq!(*mirror_after, mirror_before);
    assert!(store.archive.as_ref().unwrap().dump_taken);
}

#[test]
fn archive_prunes_extraneous_mirrored_blobs() {
    let mut store = new_store(true);
    let bucket = store.add_bucket(&String::from("b")).unwrap();
    let obj = put(&mut store, bucket.id, b"data");
    store.archive().unwrap();
    store.run_archive().unwrap();
    store.remove_bucket(bucket.id).unwrap();
    store.prune().unwrap();
    store.archive().unwrap();
    store.run_archive().unwrap();
    let mirror = store.archive.as_ref().unwrap();
    assert!(mirror.blobs.iter().all(|pair| pair.0 != obj.id));
    assert!(mirror.blobs.is_empty());
}

#[test]
fn commit_same_content_twice_distinct_ids_same_metadata() {
    let mut store = new_store(false);
    let bucket = store.add_bucket(&String::from("b")).unwrap();
    let o1 = put(&mut store, bucket.id, b"same bytes");
    let o2 = put(&mut store, bucket.id, b"same bytes");
    assert_ne!(o1.id, o2.id);
    assert_eq!(o1.hash, o2.hash);
    assert_eq!(o1.size, o2.size);
    assert_eq!(o1.media_type, o2.media_type);
    assert_eq!(o1.media_subtype, o2.media_subtype);
}

#[test]
fn get_part_with_given_id_opens_for_append() {
    let mut store = new_store(false);
    let first = store.get_part(None).unwrap();
    let again = store.get_part(Some(first)).unwrap();
    assert_eq!(first, again);
    store.write_part(first, &b"a".to_vec()).unwrap();
    store.write_part(first, &b"b".to_vec()).unwrap();
    let bucket = store.add_bucket(&String::from("b")).unwrap();
    let obj = store.commit_part(bucket.id, first).unwrap();
    assert_eq!(store.get_object(obj.id).unwrap(), b"ab".to_vec());
}

#[test]
fn about_reports_version() {
    let store = new_store(false);
    assert_eq!(store.about().version.number, "0.1.0");
}

#[test]
fn sync_action_new_builds() {
    let _action = SyncAction::new();
}

#[test]
fn update_object_errors_replaces_and_clears() {
    let mut store = new_store(false);
    let bucket = store.add_bucket(&String::from("b")).unwrap();
    let obj = put(&mut store, bucket.id, b"z");
    let entry = fstore_core::model::ObjectError {
        object_id: obj.id,
        messages: vec![String::from("stale")],
    };
    store.update_object_errors(&vec![entry]).unwrap();
    assert_eq!(store.get_object_errors().unwrap().len(), 1);
    let clear = fstore_core::model::ObjectError {
        object_id: obj.id,
        messages: Vec::new(),
    };
    store.update_object_errors(&vec![clear]).unwrap();
    assert!(store.get_object_errors().unwrap().is_empty());
}

#[test]
fn prepare_checks_schema_version() {
    let mut store = new_store(false);
    assert!(store.prepare().is_ok());
    store.schema_version = String::from("0.0.9");
    let err = store.prepare().unwrap_err();
    assert_eq!(err.kind, ErrorKind::Internal);
}

#[test]
fn get_objects_duplicate_request_yields_one_row() {
    let mut store = new_store(false);
    let bucket = store.add_bucket(&String::from("b")).unwrap();
    let obj = put(&mut store, bucket.id, b"once");
    let rows = store
        .get_objects(bucket.id, &vec![obj.id, obj.id, obj.id])
        .unwrap();
    assert_eq!(rows.len(), 1);
    assert_eq!(rows[0].id, obj.id);
}
