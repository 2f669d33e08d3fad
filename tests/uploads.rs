use oasis::fingerprint::fingerprint;
use oasis::registry::{validate_upload_user, Registry};
use oasis::upload::{
    join_slices, slice_accepted_with, validate_slice, BeforeUploadRequest, FileType,
    FinishUploadRequest, SliceUploadQuery, Token, UploadError, UploadTask,
};

const OWNER: Token = Token { uid: 7, permission: 1 };
const OTHER: Token = Token { uid: 8, permission: 1 };

fn begin(name: &str, size: u64) -> BeforeUploadRequest {
    BeforeUploadRequest { filename: name.to_string(), parent_id: 3, size }
}

fn query(index: u64, data: &[u8]) -> SliceUploadQuery {
    SliceUploadQuery { index, hash: fingerprint(&data.to_vec()) }
}

#[test]
fn begin_request_checks_each_condition() {
    let req = begin("a.txt", 10);
    assert!(req.validate(&OWNER, 7));
    assert!(!req.validate(&Token { uid: 7, permission: 0 }, 7));
    assert!(!begin("", 10).validate(&OWNER, 7));
    assert!(!begin("a.txt", 0).validate(&OWNER, 7));
    assert!(!req.validate(&OWNER, 9));
}

#[test]
fn created_task_starts_at_zero() {
    let task = begin("clip.mp4", 42).create_task("abc", 7);
    assert_eq!(task.current_index, 0);
    assert_eq!(task.upload_id, "abc");
    assert_eq!(task.filename, "clip.mp4");
    assert_eq!(task.path, "");
    assert_eq!(task.file_type, FileType::Video);
    assert_eq!(task.size, 42);
    assert_eq!(task.parent_id, 3);
    assert_eq!(task.owner_id, 7);
}

#[test]
fn registry_hands_out_fresh_ids() {
    let mut reg = Registry::new();
    let a = reg.create(&begin("a.txt", 1), &OWNER, 7).unwrap();
    let b = reg.create(&begin("a.txt", 1), &OWNER, 7).unwrap();
    assert_eq!(a.current_index, 0);
    assert_eq!(b.current_index, 0);
    assert_ne!(a.upload_id, b.upload_id);
    reg.remove(&a.upload_id).unwrap();
    let c = reg.create(&begin("c.txt", 1), &OWNER, 7).unwrap();
    assert_ne!(c.upload_id, a.upload_id);
    assert_ne!(c.upload_id, b.upload_id);
}

#[test]
fn registry_refuses_invalid_begin() {
    let mut reg = Registry::new();
    assert_eq!(reg.create(&begin("a.txt", 1), &OWNER, 8).unwrap_err(), UploadError::Auth);
    assert_eq!(reg.create(&begin("", 1), &OWNER, 7).unwrap_err(), UploadError::Auth);
}

#[test]
fn in_order_slices_advance_the_counter() {
    let mut reg = Registry::new();
    let id = reg.create(&begin("a.txt", 9), &OWNER, 7).unwrap().upload_id;
    let parts: [&[u8]; 3] = [b"abc", b"def", b"ghi"];
    for (i, part) in parts.iter().enumerate() {
        let q = query(i as u64, part);
        assert_eq!(q.validate(&part.to_vec(), &reg, &OWNER, &id), Ok(true));
        reg.advance(&id).unwrap();
    }
    assert_eq!(reg.find_upload_task_id(&id).unwrap().current_index, 3);

    let stale = query(1, b"def");
    assert_eq!(stale.validate(&b"def".to_vec(), &reg, &OWNER, &id), Ok(false));
    let ahead = query(4, b"jkl");
    assert_eq!(ahead.validate(&b"jkl".to_vec(), &reg, &OWNER, &id), Ok(false));
    assert_eq!(reg.find_upload_task_id(&id).unwrap().current_index, 3);
}

#[test]
fn slice_validation_needs_owner_index_and_hash() {
    let task = begin("a.txt", 5).create_task("t", 7);
    let data = b"hello".to_vec();
    let good = fingerprint(&data);
    assert!(validate_slice(&task, 7, 0, &good, &data));
    assert!(!validate_slice(&task, 8, 0, &good, &data));
    assert!(!validate_slice(&task, 7, 1, &good, &data));
    assert!(!validate_slice(&task, 7, 0, "00000000000000000000000000000000", &data));
    assert!(slice_accepted_with(&task, 7, 0, "abc", "abc"));
    assert!(!slice_accepted_with(&task, 7, 0, "abc", "abd"));
    assert_eq!(task.current_index, 0);
}

#[test]
fn other_users_cannot_send_slices_or_finish() {
    let mut reg = Registry::new();
    let id = reg.create(&begin("a.txt", 3), &OWNER, 7).unwrap().upload_id;
    let q = query(0, b"abc");
    assert_eq!(q.validate(&b"abc".to_vec(), &reg, &OTHER, &id), Ok(false));
    let finish = FinishUploadRequest { upload_id: id.clone() };
    assert_eq!(finish.validate(&reg, &OTHER), Ok(false));
    assert_eq!(finish.validate(&reg, &OWNER), Ok(true));
    assert_eq!(finish.validate(&reg, &Token { uid: 7, permission: 0 }), Ok(false));
}

#[test]
fn unknown_upload_is_not_found() {
    let mut reg = Registry::new();
    let id = reg.create(&begin("a.txt", 3), &OWNER, 7).unwrap().upload_id;
    reg.remove(&id).unwrap();
    let finish = FinishUploadRequest { upload_id: id.clone() };
    assert_eq!(finish.validate(&reg, &OWNER), Err(UploadError::NotFound));
    assert_eq!(reg.advance(&id), Err(UploadError::NotFound));
    assert!(reg.find_upload_task_id(&id).is_err());
    assert!(reg.remove(&id).is_err());
    assert_eq!(validate_upload_user(&reg, &OWNER, "missing"), Err(UploadError::NotFound));
}

#[test]
fn combine_reproduces_the_upload() {
    let original = b"Hello world, in slices".to_vec();
    let slices = vec![original[0..5].to_vec(), original[5..5].to_vec(), original[5..].to_vec()];
    let mut task = begin("a.txt", original.len() as u64).create_task("t", 7);
    for _ in 0..3 {
        task.advance().unwrap();
    }
    let existing = vec!["a.txt".to_string()];
    let content = task.combine_slices(&existing, &slices).unwrap();
    assert_eq!(content, original);
    assert_eq!(content.len(), original.len());
    assert_eq!(task.path, "a-0.txt");
    assert_eq!(join_slices(&Vec::new()), Vec::<u8>::new());
}

#[test]
fn combine_refuses_missing_slices() {
    let mut task = begin("a.txt", 4).create_task("t", 7);
    task.advance().unwrap();
    task.advance().unwrap();
    let slices = vec![b"ab".to_vec()];
    assert_eq!(task.combine_slices(&Vec::new(), &slices), Err(UploadError::MissingSlice));
    assert_eq!(task.path, "");
}

#[test]
fn retried_slice_does_not_change_output() {
    let mut scratch: Vec<Vec<u8>> = vec![b"ab".to_vec(), b"cd".to_vec()];
    let mut task = begin("r.bin", 4).create_task("t", 7);
    task.advance().unwrap();
    scratch[1] = b"cd".to_vec();
    task.advance().unwrap();
    let content = task.combine_slices(&Vec::new(), &scratch).unwrap();
    assert_eq!(content, b"abcd".to_vec());
}

#[test]
fn counter_stops_at_its_limit() {
    let mut task = begin("a.txt", 1).create_task("t", 7);
    task.current_index = u64::MAX;
    assert_eq!(task.advance(), Err(UploadError::Exhausted));
    assert_eq!(task.current_index, u64::MAX);
}

#[test]
fn file_record_query_lists_the_fields() {
    let mut task: UploadTask = begin("clip.mp4", 42).create_task("t", -5);
    task.path = "clip-0.mp4".to_string();
    let q = task.insert_file_query().unwrap();
    assert_eq!(
        q.sql,
        "insert into FILE (filename, file_type, path, size, owner_id, parent_id) values (?1, ?2, ?3, ?4, ?5, ?6)"
    );
    assert_eq!(q.args, vec!["clip.mp4", "Video", "clip-0.mp4", "42", "-5", "3"]);
}

#[test]
fn stored_name_is_the_last_path_component() {
    let mut task = begin("docs/a.txt", 2).create_task("t", 7);
    task.advance().unwrap();
    let existing = vec!["a.txt".to_string()];
    let content = task.combine_slices(&existing, &vec![b"hi".to_vec()]).unwrap();
    assert_eq!(content, b"hi".to_vec());
    assert_eq!(task.path, "a-0.txt");
}

#[test]
fn combine_without_slices_keeps_a_free_name() {
    let mut task = begin("empty.txt", 1).create_task("t", 7);
    let content = task.combine_slices(&Vec::new(), &Vec::new()).unwrap();
    assert!(content.is_empty());
    assert_eq!(task.path, "empty.txt");
}
