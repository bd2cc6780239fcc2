use dfs::DfsError;
use dfs::NameNodeRecords;
use dfs::Storage;
use dfs::assemble_file;
use dfs::block_name;
use dfs::build_block_requests;
use dfs::slice_block;

const BLOCK_SIZE: usize = 4;

/// A cluster of DataNode block stores addressed like the live system, driven
/// through the same calls the client driver makes per block.
struct Cluster {
    records: NameNodeRecords,
    stores: Vec<(String, Storage)>,
}

impl Cluster {
    fn new(ports: &[&str]) -> Cluster {
        let mut records = NameNodeRecords::new(2, BLOCK_SIZE);
        let mut stores = Vec::new();
        for (i, port) in ports.iter().enumerate() {
            let addr = format!("127.0.0.1:{}", port);
            records.record_heartbeat(&addr, i as i64);
            stores.push((addr, Storage::new()));
        }
        Cluster { records, stores }
    }

    fn store_mut(&mut self, addr: &str) -> &mut Storage {
        &mut self.stores.iter_mut().find(|(a, _)| a == addr).unwrap().1
    }

    fn store(&self, addr: &str) -> &Storage {
        &self.stores.iter().find(|(a, _)| a == addr).unwrap().1
    }

    /// The create path: declare the file, then create each block on its
    /// preferred replica.
    fn create(&mut self, path: &str, data: &[u8]) -> Result<(), DfsError> {
        let payload = data.to_vec();
        let routing = self.records.add_file(path, payload.len())?;
        let requests = build_block_requests(path, &payload, routing.len(), BLOCK_SIZE);
        for (i, (name, info)) in requests.into_iter().enumerate() {
            let target = routing[i][0].clone();
            self.store_mut(&target).create(&name, info)?;
        }
        Ok(())
    }

    /// The update path: declare the new size, then update each write target
    /// and send the zero-size delete sentinel to each shrink target.
    fn update(&mut self, path: &str, data: &[u8]) -> Result<(), DfsError> {
        let payload = data.to_vec();
        let routing = self.records.update_file(path, payload.len())?;
        let requests = build_block_requests(path, &payload, routing.len(), BLOCK_SIZE);
        for (i, (name, info)) in requests.into_iter().enumerate() {
            if routing[i].is_empty() {
                continue;
            }
            let target = routing[i][0].clone();
            self.store_mut(&target).update(&name, info)?;
        }
        Ok(())
    }

    /// The delete path: drop the file from the NameNode, then delete every
    /// replica of every block.
    fn delete(&mut self, path: &str) -> Result<(), DfsError> {
        let routing = self.records.remove_file(path)?;
        for (i, replicas) in routing.into_iter().enumerate() {
            let name = block_name(path, i);
            for addr in replicas {
                self.store_mut(&addr).delete(&name)?;
            }
        }
        Ok(())
    }

    /// The read path: fetch the routing map, read each block from its
    /// preferred replica, and concatenate in index order. `None` means the
    /// file does not exist.
    fn read(&self, path: &str) -> Option<Vec<u8>> {
        let routing = self.records.get_file_addresses(path).unwrap();
        if routing.is_empty() {
            return None;
        }
        let mut blocks = Vec::new();
        for (i, replicas) in routing.iter().enumerate() {
            let name = block_name(path, i);
            let data = self.store(&replicas[0]).read(&name).unwrap();
            blocks.push(data);
        }
        Some(assemble_file(&blocks))
    }
}

// roundtrip of a small file: two blocks, each with a two-element replica list
#[test]
fn test_roundtrip_small_file() {
    let mut cluster = Cluster::new(&["8080", "8081", "8082"]);
    cluster.create("hello.txt", b"hello").unwrap();

    let routing = cluster.records.get_file_addresses("hello.txt").unwrap();
    assert_eq!(routing.len(), 2);
    for replicas in &routing {
        assert_eq!(replicas.len(), 2);
        assert_ne!(replicas[0], replicas[1]);
    }

    assert_eq!(cluster.read("hello.txt").unwrap(), b"hello".to_vec());
}

// overwrite by update: the file shrinks from two blocks to one and reads back
// with the new contents
#[test]
fn test_overwrite_by_update() {
    let mut cluster = Cluster::new(&["8080", "8081", "8082"]);
    cluster.create("hello.txt", b"hello").unwrap();
    cluster.update("hello.txt", b"hi").unwrap();

    assert_eq!(cluster.read("hello.txt").unwrap(), b"hi".to_vec());

    // the dropped block is gone from its datanodes
    let name = block_name("hello.txt", 1);
    for (_, store) in &cluster.stores {
        assert!(!store.has_block(&name));
    }
}

// delete idempotency: a second delete succeeds silently and a read reports a
// missing file
#[test]
fn test_delete_idempotency() {
    let mut cluster = Cluster::new(&["8080", "8081", "8082"]);
    cluster.create("hello.txt", b"hello").unwrap();
    cluster.update("hello.txt", b"hi").unwrap();

    cluster.delete("hello.txt").unwrap();
    cluster.delete("hello.txt").unwrap();

    assert!(cluster.read("hello.txt").is_none());
    for i in 0..2 {
        let name = block_name("hello.txt", i);
        for (_, store) in &cluster.stores {
            assert!(!store.has_block(&name));
        }
    }
}

// a file of exactly one block and a file one byte over
#[test]
fn test_block_boundaries_roundtrip() {
    let mut cluster = Cluster::new(&["8080", "8081"]);

    cluster.create("exact", b"abcd").unwrap();
    assert_eq!(cluster.records.get_file_addresses("exact").unwrap().len(), 1);
    assert_eq!(cluster.read("exact").unwrap(), b"abcd".to_vec());

    cluster.create("over", b"abcde").unwrap();
    let routing = cluster.records.get_file_addresses("over").unwrap();
    assert_eq!(routing.len(), 2);
    assert_eq!(cluster.read("over").unwrap(), b"abcde".to_vec());
    // the second block carries exactly one byte
    let name = block_name("over", 1);
    let second = cluster.store(&routing[1][0]).read(&name).unwrap();
    assert_eq!(second, b"e".to_vec());
}

#[test]
fn test_slice_block_cuts_in_offset_order() {
    let data = b"abcdefghi".to_vec();
    assert_eq!(slice_block(&data, 0, 4), b"abcd".to_vec());
    assert_eq!(slice_block(&data, 1, 4), b"efgh".to_vec());
    assert_eq!(slice_block(&data, 2, 4), b"i".to_vec());
    assert_eq!(slice_block(&data, 3, 4), Vec::<u8>::new());
}

#[test]
fn test_assemble_concatenates_in_index_order() {
    let blocks = vec![b"abcd".to_vec(), b"efgh".to_vec(), b"i".to_vec()];
    assert_eq!(assemble_file(&blocks), b"abcdefghi".to_vec());
    assert_eq!(assemble_file(&Vec::new()), Vec::<u8>::new());
}

#[test]
fn test_build_block_requests_shapes() {
    let data = b"hello".to_vec();
    let reqs = build_block_requests("hello.txt", &data, 3, 4);
    assert_eq!(reqs.len(), 3);
    assert_eq!(reqs[0].0, "hello.txt_0");
    assert_eq!(reqs[0].1.block_id, 0);
    assert_eq!(reqs[0].1.block_size, 4);
    assert_eq!(reqs[0].1.block_data, b"hell".to_vec());
    assert_eq!(reqs[1].0, "hello.txt_1");
    assert_eq!(reqs[1].1.block_size, 1);
    assert_eq!(reqs[1].1.block_data, b"o".to_vec());
    // past the payload: the zero-size delete sentinel
    assert_eq!(reqs[2].0, "hello.txt_2");
    assert_eq!(reqs[2].1.block_size, 0);
    assert!(reqs[2].1.block_data.is_empty());
}
