use storage_core::catalog::{CollectionMetadata, FsDatabase};
use storage_core::errors::FsDatabaseError;
use storage_core::utils::{bin_filename, build_json_file_path, join_path, json_filename};

#[test]
fn registration_is_idempotent() {
    let mut db = FsDatabase::new("mystore".to_string(), "data/mystoredb".to_string());
    let user = "user".to_string();
    assert!(db.register_collection(&user));
    assert!(!db.register_collection(&user));
    assert_eq!(db.collection_names(), vec!["user".to_string()]);
    db.bind_repository(&user, &"tag".to_string());
    db.bind_repository(&user, &"tag".to_string());
    assert_eq!(db.collection(&user, &"tag".to_string()), Ok(()));
}

#[test]
fn collection_lookup_errors() {
    let mut db = FsDatabase::new("mystore".to_string(), "data/mystoredb".to_string());
    let user = "user".to_string();
    assert_eq!(
        db.collection(&user, &"tag".to_string()),
        Err(FsDatabaseError::CollectionRepoisitoryMissingError { path: "user".to_string() })
    );
    db.register_collection(&user);
    db.bind_repository(&user, &"user-tag".to_string());
    assert_eq!(
        db.collection(&user, &"account-tag".to_string()),
        Err(FsDatabaseError::CollectionRepoisitoryDowncastError { path: "user".to_string() })
    );
    db.bind_repository(&user, &"account-tag".to_string());
    assert_eq!(db.collection(&user, &"account-tag".to_string()), Ok(()));
}

#[test]
fn manifest_lists_each_collection_once() {
    let db = FsDatabase::from_manifest(
        "mystore".to_string(),
        "data/mystoredb".to_string(),
        vec![
            CollectionMetadata { name: "user".to_string() },
            CollectionMetadata { name: "account".to_string() },
            CollectionMetadata { name: "user".to_string() },
        ],
    );
    let mut names = db.collection_names();
    names.sort();
    assert_eq!(names, vec!["account".to_string(), "user".to_string()]);
    assert_eq!(db.name(), "mystore");
    assert_eq!(db.file_path(), "data/mystoredb");
    assert_eq!(
        db.collection(&"user".to_string(), &"t".to_string()),
        Err(FsDatabaseError::CollectionRepoisitoryMissingError { path: "user".to_string() })
    );
}

#[test]
fn database_paths() {
    let db = FsDatabase::new("mystore".to_string(), "data/mystoredb".to_string());
    assert_eq!(db.manifest_path(), "data/mystoredb/mystore.json");
    assert_eq!(db.collection_path("user"), "data/mystoredb/user");
}

#[test]
fn file_names_and_joins() {
    assert_eq!(json_filename("abc"), "abc.json");
    assert_eq!(bin_filename("user"), "user.bin");
    assert_eq!(build_json_file_path("data", "db"), "data/db.json");
    assert_eq!(join_path("data/", "user"), "data/user");
    assert_eq!(join_path("", "user"), "user");
    assert_eq!(join_path("data", "/abs"), "/abs");
}
