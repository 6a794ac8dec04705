use redrob_vectordb::indexing::{
    accepts_file, after_file, embedding_batches, file_progress, finished_progress, is_excluded,
    max_file_bytes, next_step, scanning_progress, FileFollowUp, IndexControl, RunStep,
};
use redrob_vectordb::library::{
    authorized, backup_file_name, check_integrity, corrupt_database_name, corrupt_index_name, check_vector_commit, connection_status,
    document_page, local_api_token, migration_plan, needs_fts_rebuild, path_le_exec, removed_documents, sort_strings,
    sort_unique_paths,
    stale_backups, validate_api_key, with_library_path, within_library, without_library_path,
    ApiKeyError, StorageError, StoredPath,
};
use redrob_vectordb::models::IndexStatus;

fn strings(items: &[&str]) -> Vec<String> {
    items.iter().map(|s| s.to_string()).collect()
}

#[test]
fn adding_a_folder_keeps_the_list_sorted_and_unique() {
    let paths = with_library_path(strings(&["/b", "/a"]), "/c".into());
    assert_eq!(paths, strings(&["/a", "/b", "/c"]));
    let again = with_library_path(paths.clone(), "/b".into());
    assert_eq!(again, paths);
    assert_eq!(with_library_path(vec![], "/x".into()), strings(&["/x"]));
}

#[test]
fn removing_a_folder_keeps_the_others_in_order() {
    let paths = strings(&["/z", "/a", "/z", "/m"]);
    assert_eq!(without_library_path(&paths, "/z"), strings(&["/a", "/m"]));
    assert_eq!(without_library_path(&paths, "/none"), paths);
}

#[test]
fn strings_sort_by_code_point() {
    let sorted = sort_strings(strings(&["b", "B", "가", "a", "", "ab"]));
    let mut expected = strings(&["b", "B", "가", "a", "", "ab"]);
    expected.sort();
    assert_eq!(sorted, expected);
}

fn stored(path: &str) -> StoredPath {
    StoredPath {
        path: path.to_string(),
        components: path.split('/').filter(|c| !c.is_empty()).map(str::to_string).collect(),
    }
}

#[test]
fn missing_documents_are_those_not_found_again() {
    let records = vec![stored("/a"), stored("/b"), stored("/c")];
    let found = strings(&["/c", "/a"]);
    assert_eq!(removed_documents(&records, &found, &vec![]), strings(&["/b"]));
    assert!(removed_documents(&records, &strings(&["/a", "/b", "/c"]), &vec![]).is_empty());
}

#[test]
fn records_of_a_disconnected_folder_are_preserved() {
    let records = vec![
        stored("/media/usb/report.pdf"),
        stored("/home/me/notes.md"),
        stored("/media/usb2/old.txt"),
    ];
    let unavailable = vec![strings(&["media", "usb"])];
    assert_eq!(
        removed_documents(&records, &vec![], &unavailable),
        strings(&["/home/me/notes.md", "/media/usb2/old.txt"])
    );
}

#[test]
fn only_the_three_newest_backups_are_kept() {
    let names = strings(&[
        "metadata-20260103T000000Z-aaaaaaaa-manual.db",
        "notes.txt",
        "metadata-20260101T000000Z-bbbbbbbb-manual.db",
        "metadata-20260104T000000Z-cccccccc-manual.db",
        "metadata-20260102T000000Z-dddddddd-pre-migration.db",
        "metadata-20260105T000000Z-eeeeeeee-manual.db",
    ]);
    assert_eq!(
        stale_backups(&names),
        strings(&[
            "metadata-20260101T000000Z-bbbbbbbb-manual.db",
            "metadata-20260102T000000Z-dddddddd-pre-migration.db",
        ])
    );
    assert!(stale_backups(&strings(&["metadata-1.db", "metadata-2.db"])).is_empty());
}

#[test]
fn backup_names_carry_time_identifier_and_reason() {
    assert_eq!(
        backup_file_name("20260908T101500Z", "0123456789abcdef", "manual"),
        "metadata-20260908T101500Z-01234567-manual.db"
    );
}

#[test]
fn newer_schemas_are_refused_and_older_ones_backed_up() {
    assert_eq!(migration_plan(true, 3), Err(StorageError::NewerSchema));
    assert_eq!(migration_plan(true, 1), Ok(true));
    assert_eq!(migration_plan(false, 0), Ok(false));
    assert_eq!(migration_plan(true, 2), Ok(false));
    assert!(needs_fts_rebuild(1));
    assert!(!needs_fts_rebuild(2));
}

#[test]
fn integrity_and_commit_checks() {
    assert_eq!(check_integrity("ok", 0), Ok(()));
    assert_eq!(check_integrity("corrupt page", 0), Err(StorageError::IntegrityFailed));
    assert_eq!(check_integrity("ok", 2), Err(StorageError::BrokenReferences));
    assert_eq!(check_vector_commit(1), Ok(()));
    assert_eq!(check_vector_commit(0), Err(StorageError::DocumentDisappeared));
    assert_eq!(
        StorageError::NewerSchema.message(),
        "this library was created by a newer version of Redrob VectorDB"
    );
}

#[test]
fn document_pages_are_clamped() {
    assert_eq!(document_page(None, None), (100, 0));
    assert_eq!(document_page(Some(0), Some(7)), (1, 7));
    assert_eq!(document_page(Some(9999), None), (500, 0));
}

#[test]
fn api_keys_are_trimmed_and_checked() {
    assert_eq!(validate_api_key("   "), Err(ApiKeyError::Empty));
    assert_eq!(validate_api_key(" short "), Err(ApiKeyError::TooShort));
    assert_eq!(validate_api_key("  0123456789abcdef  ").unwrap(), "0123456789abcdef");
    assert_eq!(ApiKeyError::TooShort.message(), "that API key is too short");
}

#[test]
fn connection_status_reflects_the_key() {
    let status = connection_status(true, "https://x".into());
    assert!(status.connected);
    assert_eq!(status.key_label.as_deref(), Some("This device"));
    assert_eq!(status.endpoint, "https://x");
    assert!(connection_status(false, String::new()).key_label.is_none());
}

#[test]
fn local_api_requires_the_exact_bearer_token() {
    assert!(authorized(Some("Bearer rrv_local_abc"), "rrv_local_abc"));
    assert!(!authorized(Some("Bearer rrv_local_abd"), "rrv_local_abc"));
    assert!(!authorized(Some("rrv_local_abc"), "rrv_local_abc"));
    assert!(!authorized(None, "rrv_local_abc"));
}

#[test]
fn sources_must_lie_under_a_library_folder() {
    let roots = vec![strings(&["/", "home", "me", "docs"])];
    assert!(within_library(&strings(&["/", "home", "me", "docs", "a.txt"]), &roots));
    assert!(!within_library(&strings(&["/", "home", "me", "docs2", "a.txt"]), &roots));
    assert!(!within_library(&strings(&["/", "home"]), &roots));
}

#[test]
fn only_one_indexing_run_holds_the_index() {
    let mut control = IndexControl::new();
    assert!(control.set_indexing(true));
    assert!(!control.set_indexing(true));
    assert!(control.is_indexing());
    assert!(control.set_indexing(false));
    assert!(control.set_indexing(true));
}

#[test]
fn status_prefers_paused_over_indexing() {
    let mut control = IndexControl::new();
    assert_eq!(control.status(), IndexStatus::Idle);
    control.set_indexing(true);
    assert_eq!(control.status(), IndexStatus::Indexing);
    control.set_paused(true);
    assert_eq!(control.status(), IndexStatus::Paused);
    assert!(control.should_stop());
    control.set_paused(false);
    control.shutdown();
    assert!(control.should_stop());
    control.set_current_file(Some("a.txt".into()));
    assert_eq!(control.current_file().as_deref(), Some("a.txt"));
}

#[test]
fn progress_messages() {
    assert_eq!(scanning_progress().message, "Finding supported files…");
    let p = file_progress(2, 9, "a.txt".into());
    assert_eq!((p.processed, p.total, p.status), (2, 9, IndexStatus::Indexing));
    assert_eq!(finished_progress(9, true).message, "Indexing paused");
    assert_eq!(finished_progress(9, false).status, IndexStatus::Idle);
}

#[test]
fn embedding_batches_cover_every_passage_once() {
    assert_eq!(embedding_batches(0), vec![]);
    assert_eq!(embedding_batches(32), vec![(0, 32)]);
    assert_eq!(embedding_batches(70), vec![(0, 32), (32, 64), (64, 70)]);
}

#[test]
fn discovered_files_are_filtered_by_type_size_and_exclusions() {
    let types = strings(&["PDF", "md"]);
    assert!(accepts_file(&types, "pdf", 10, 10));
    assert!(!accepts_file(&types, "pdf", 11, 10));
    assert!(!accepts_file(&types, "txt", 1, 10));
    assert_eq!(max_file_bytes(50), 52_428_800);
    let excluded = strings(&[".git", "node_modules"]);
    assert!(is_excluded(&strings(&["/", "src", "node_modules", "x.js"]), &excluded));
    assert!(!is_excluded(&strings(&["/", "src", "x.js"]), &excluded));
}

#[test]
fn found_files_are_sorted_by_component_and_kept_once() {
    let found = vec![
        strings(&["/", "lib", "b.txt"]),
        strings(&["/", "lib-x", "a.txt"]),
        strings(&["/", "lib", "a", "c.md"]),
        strings(&["/", "lib", "b.txt"]),
    ];
    let sorted = sort_unique_paths(found);
    assert_eq!(
        sorted,
        vec![
            strings(&["/", "lib", "a", "c.md"]),
            strings(&["/", "lib", "b.txt"]),
            strings(&["/", "lib-x", "a.txt"]),
        ]
    );
}

#[test]
fn a_folder_comes_before_its_contents_and_before_longer_names() {
    assert!(path_le_exec(&strings(&["/", "a"]), &strings(&["/", "a", "b"])));
    assert!(!path_le_exec(&strings(&["/", "a", "b"]), &strings(&["/", "a"])));
    assert!(path_le_exec(&strings(&["/", "a", "z"]), &strings(&["/", "a-b"])));
    assert!(path_le_exec(&strings(&["/", "a"]), &strings(&["/", "a"])));
}

#[test]
fn local_api_tokens_carry_their_prefix() {
    assert_eq!(
        local_api_token("0123456789abcdef0123456789abcdef"),
        "rrv_local_0123456789abcdef0123456789abcdef"
    );
    assert!(authorized(
        Some("Bearer rrv_local_abc"),
        &local_api_token("abc")
    ));
}

#[test]
fn damaged_stores_are_kept_under_timestamped_names() {
    assert_eq!(
        corrupt_database_name("20240102T030405Z"),
        "metadata-corrupt-20240102T030405Z.db"
    );
    assert_eq!(corrupt_index_name("20240102T030405Z"), "qdrant-edge-corrupt-20240102T030405Z");
}

#[test]
fn removing_a_just_added_folder_restores_the_library() {
    let before = strings(&["/b", "/a"]);
    let added = with_library_path(before.clone(), "/c".into());
    let mut restored = without_library_path(&added, "/c");
    restored.sort();
    let mut expected = before;
    expected.sort();
    assert_eq!(restored, expected);
}

#[test]
fn a_run_indexes_each_file_in_turn_and_goes_on_past_failures() {
    let outcomes = [true, false, true];
    let mut position = 0;
    let mut indexed = Vec::new();
    let mut failed = Vec::new();
    let end = loop {
        match next_step(position, outcomes.len(), false, false) {
            RunStep::Index(current) => {
                indexed.push(current);
                let follow = after_file(current, outcomes.len(), outcomes[current]);
                if follow.record_failure {
                    failed.push(current);
                }
                position = follow.next;
            }
            finish => break finish,
        }
    };
    assert_eq!(indexed, vec![0, 1, 2]);
    assert_eq!(failed, vec![1]);
    assert_eq!(end, RunStep::Finish { reconcile: true, paused: false });
    assert_eq!(after_file(0, 1, true), FileFollowUp { record_failure: false, next: 1 });
}

#[test]
fn a_paused_run_stops_without_removing_documents() {
    assert_eq!(next_step(2, 5, true, false), RunStep::Finish { reconcile: false, paused: true });
    assert_eq!(next_step(2, 5, false, true), RunStep::Finish { reconcile: true, paused: false });
    assert_eq!(next_step(2, 5, false, false), RunStep::Index(2));
}
