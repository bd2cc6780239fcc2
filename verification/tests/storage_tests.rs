use dfs::Block;
use dfs::BlockInfo;
use dfs::DfsError;
use dfs::Storage;
use dfs::block_name;
use dfs::read_block;

fn info(id: u64, size: u64, data: &[u8]) -> BlockInfo {
    BlockInfo { block_id: id, block_size: size, block_data: data.to_vec() }
}

#[test]
fn test_block_new_read_write() {
    let b = Block::new("b_0".to_string(), vec![1, 2, 3]);
    assert_eq!(b.read(), vec![1, 2, 3]);
    let mut b = b;
    b.write(info(0, 2, &[9, 8, 7]));
    assert_eq!(b.read(), vec![9, 8]);
    assert_eq!(b.name, "b_0");
}

#[test]
fn test_create_then_read_returns_payload() {
    let mut store = Storage::new();
    assert!(store.create("f_0", info(0, 5, b"hello")).is_ok());
    assert_eq!(store.read("f_0").unwrap(), b"hello".to_vec());
}

#[test]
fn test_create_truncates_to_declared_size() {
    let mut store = Storage::new();
    // size field authoritatively truncates over-supplied payloads
    assert!(store.create("f_0", info(0, 3, b"hello")).is_ok());
    assert_eq!(store.read("f_0").unwrap(), b"hel".to_vec());
    // an under-supplied payload is stored whole
    assert!(store.create("f_1", info(1, 10, b"hi")).is_ok());
    assert_eq!(store.read("f_1").unwrap(), b"hi".to_vec());
}

#[test]
fn test_create_twice_fails_with_already_exists() {
    let mut store = Storage::new();
    assert!(store.create("f_0", info(0, 1, b"a")).is_ok());
    let second = store.create("f_0", info(0, 1, b"b"));
    assert_eq!(second.unwrap_err(), DfsError::AlreadyExists);
    // the first payload is untouched
    assert_eq!(store.read("f_0").unwrap(), b"a".to_vec());
}

#[test]
fn test_delete_is_idempotent() {
    let mut store = Storage::new();
    assert!(store.create("f_0", info(0, 1, b"a")).is_ok());
    assert!(store.delete("f_0").is_ok());
    // a second delete of the same name succeeds
    assert!(store.delete("f_0").is_ok());
    assert_eq!(store.read("f_0").unwrap_err(), DfsError::NotFound);
}

#[test]
fn test_read_missing_block_not_found() {
    let store = Storage::new();
    assert_eq!(store.read("absent").unwrap_err(), DfsError::NotFound);
}

#[test]
fn test_update_creates_when_absent_and_overwrites_when_present() {
    let mut store = Storage::new();
    assert!(store.update("f_0", info(0, 2, b"ab")).is_ok());
    assert_eq!(store.read("f_0").unwrap(), b"ab".to_vec());
    assert!(store.update("f_0", info(0, 4, b"wxyz")).is_ok());
    assert_eq!(store.read("f_0").unwrap(), b"wxyz".to_vec());
}

#[test]
fn test_update_block_size_zero_deletes() {
    let mut store = Storage::new();
    assert!(store.create("f_0", info(0, 2, b"ab")).is_ok());
    assert!(store.update("f_0", info(0, 0, b"")).is_ok());
    assert_eq!(store.read("f_0").unwrap_err(), DfsError::NotFound);
    // a later create of the same name succeeds: the block is gone
    assert!(store.create("f_0", info(0, 1, b"z")).is_ok());
    // deleting an absent block through an update also succeeds
    assert!(store.update("f_1", info(0, 0, b"")).is_ok());
}

#[test]
fn test_read_block_reply_counts_bytes() {
    let mut store = Storage::new();
    assert!(store.create("f_0", info(0, 5, b"hello")).is_ok());
    let reply = read_block(&store, "f_0").unwrap();
    assert_eq!(reply.bytes_read, 5);
    assert_eq!(reply.bytes_total, 0);
    assert_eq!(reply.block_data, b"hello".to_vec());
    match read_block(&store, "f_1") {
        Ok(_) => panic!("read of a missing block must fail"),
        Err(e) => assert_eq!(e, DfsError::NotFound),
    }
}

#[test]
fn test_has_block_and_get_block() {
    let mut store = Storage::new();
    assert!(!store.has_block("f_0"));
    assert!(store.create("f_0", info(0, 1, b"a")).is_ok());
    assert!(store.has_block("f_0"));
    let b = store.get_block("f_0").unwrap();
    assert_eq!(b.name, "f_0");
    assert!(store.get_block("f_9").is_none());
}

#[test]
fn test_block_names() {
    assert_eq!(block_name("hello.txt", 0), "hello.txt_0");
    assert_eq!(block_name("hello.txt", 1), "hello.txt_1");
    assert_eq!(block_name("f", 12), "f_12");
    assert_eq!(block_name("f", 1234567890), "f_1234567890");
}

#[test]
fn test_error_messages() {
    assert_eq!(DfsError::InvalidArgument.message(), "argument-invalid");
    assert_eq!(DfsError::NoCapacity.message(), "no-capacity");
    assert_eq!(DfsError::AlreadyExists.message(), "already-exists");
    assert_eq!(DfsError::NotFound.message(), "not-found");
    assert_eq!(DfsError::Internal.message(), "internal");
}
