use dfs::DfsError;
use dfs::NameNodeRecords;

fn sorted(mut v: Vec<String>) -> Vec<String> {
    v.sort();
    v
}

#[test]
fn test_add_datanode() {
    let mut records = NameNodeRecords::new(1, 4096);
    let datanode = "127.0.0.1:5000";

    records.add_datanode(datanode);

    let statuses = records.get_datanode_statuses();
    assert_eq!(statuses.len(), 1);
    assert_eq!(statuses[0].addr, datanode);
    assert!(statuses[0].alive);
    assert_eq!(statuses[0].id, 0);

    // registering the same address again changes nothing
    records.add_datanode(datanode);
    assert_eq!(records.get_datanode_statuses().len(), 1);
}

// one datanode in the system, replication of 1
#[test]
fn test_add_read_remove_file_1() {
    let mut records = NameNodeRecords::new(1, 4096);
    let datanode = "127.0.0.1:5000";
    records.add_datanode(datanode);

    let file_path = "test_file";
    let file_size = 123;

    // adding a file places its single block on the only datanode
    let result = records.add_file(file_path, file_size);
    assert!(result.is_ok());
    let addrs = result.unwrap();
    assert_eq!(addrs, vec![vec![datanode.to_string()]]);

    // reading the file returns the same address
    let addresses = records.get_file_addresses(file_path);
    assert!(addresses.is_ok());
    let addrs = addresses.unwrap();
    assert_eq!(addrs.len(), 1);
    assert_eq!(addrs, vec![vec![datanode.to_string()]]);

    // removing the file returns the address it lived on
    let removal = records.remove_file(file_path);
    assert!(removal.is_ok());
    assert_eq!(removal.unwrap(), vec![vec![datanode.to_string()]]);

    // the file is gone after removal
    let after = records.get_file_addresses(file_path).unwrap();
    assert!(after.is_empty());
}

// several datanodes in the system, replication of 1
#[test]
fn test_add_read_remove_file_2() {
    let mut records = NameNodeRecords::new(1, 4096);
    records.add_datanode("127.0.0.1:5000");
    records.add_datanode("127.0.0.1:5001");
    records.add_datanode("127.0.0.1:5002");

    let file_path_0 = "test_file";
    let file_path_1 = "test_file_1";
    let file_size = 123;

    let datanode_0 = records.add_file(file_path_0, file_size).unwrap();
    assert_eq!(datanode_0.len(), 1);
    assert_eq!(datanode_0[0].len(), 1);
    let datanode_1 = records.add_file(file_path_1, file_size).unwrap();
    assert_eq!(datanode_1.len(), 1);
    assert_eq!(datanode_1[0].len(), 1);

    assert_eq!(records.get_file_addresses(file_path_0).unwrap(), datanode_0);
    assert_eq!(records.get_file_addresses(file_path_1).unwrap(), datanode_1);

    assert_eq!(records.remove_file(file_path_0).unwrap(), datanode_0);
    assert_eq!(records.remove_file(file_path_1).unwrap(), datanode_1);
}

#[test]
fn test_replication() {
    let mut records = NameNodeRecords::new(2, 4096);
    let datanode1 = "127.0.0.1:5000";
    let datanode2 = "127.0.0.1:5001";
    let datanode3 = "127.0.0.1:5002";
    records.add_datanode(datanode1);

    // replication factor > number of datanodes: every datanode is used
    let file_path = "test_file";
    let ips = records.add_file(file_path, 123).unwrap();
    assert_eq!(ips, vec![vec![datanode1.to_string()]]);

    // replication factor = number of datanodes
    let file_path_2 = "test_file_2";
    records.add_datanode(datanode2);
    let ips = records.add_file(file_path_2, 123).unwrap();
    assert_eq!(ips.len(), 1);
    assert_eq!(ips[0].len(), 2);
    assert!(ips[0].contains(&datanode1.to_string()));
    assert!(ips[0].contains(&datanode2.to_string()));

    // replication factor < number of datanodes: two distinct replicas
    let file_path_3 = "test_file_3";
    records.add_datanode(datanode3);
    let ips = records.add_file(file_path_3, 123).unwrap();
    assert_eq!(ips.len(), 1);
    assert_eq!(ips[0].len(), 2);
    assert_ne!(ips[0][0], ips[0][1]);
    let known = [datanode1, datanode2, datanode3];
    assert!(known.contains(&ips[0][0].as_str()));
    assert!(known.contains(&ips[0][1].as_str()));
}

// no DataNodes registered: create fails with no-capacity, reads find nothing,
// status still answers
#[test]
fn test_no_capacity() {
    let mut records = NameNodeRecords::new(2, 4);

    let r = records.add_file("x", 1);
    assert_eq!(r.unwrap_err(), DfsError::NoCapacity);

    let read = records.get_file_addresses("x").unwrap();
    assert!(read.is_empty());

    let status = records.system_status("127.0.0.1:3000");
    assert_eq!(status.num_datanodes, 0);
    assert!(status.nodes.is_empty());
    assert!(status.namenode.is_online);

    // a zero-byte file needs no capacity and records zero blocks
    let empty = records.add_file("empty", 0).unwrap();
    assert!(empty.is_empty());
}

// heartbeat registration: one heartbeat registers the datanode and the status
// report shows it online
#[test]
fn test_heartbeat_registration() {
    let mut records = NameNodeRecords::new(2, 4);
    records.record_heartbeat("127.0.0.1:8090", 17);

    let status = records.system_status("127.0.0.1:3000");
    assert_eq!(status.num_datanodes, 1);
    assert_eq!(status.nodes.len(), 1);
    assert_eq!(status.nodes[0].node_address, "127.0.0.1:8090");
    assert!(status.nodes[0].is_online);
    assert_eq!(records.get_heartbeat("127.0.0.1:8090"), Some(17));
    assert_eq!(records.get_heartbeat("127.0.0.1:9999"), None);
}

// heartbeat timestamps never decrease while the clock does not
#[test]
fn test_heartbeat_monotonic() {
    let mut records = NameNodeRecords::new(2, 4);
    records.record_heartbeat("127.0.0.1:8090", 5);
    let first = records.get_heartbeat("127.0.0.1:8090").unwrap();
    records.record_heartbeat("127.0.0.1:8090", 9);
    let second = records.get_heartbeat("127.0.0.1:8090").unwrap();
    assert!(second >= first);
    assert_eq!(second, 9);
    // the registry still holds the address once
    assert_eq!(records.get_datanode_statuses().len(), 1);
}

// a wall-clock heartbeat registers the datanode too
#[test]
fn test_heartbeat_now_registers() {
    let mut records = NameNodeRecords::new(2, 4);
    records.record_heartbeat_now("127.0.0.1:8091");
    assert!(records.get_heartbeat("127.0.0.1:8091").is_some());
    assert_eq!(records.get_datanode_statuses().len(), 1);
}

// placement determinism: with a fixed registry, creating the same file twice
// (deleting in between) yields the same replica set
#[test]
fn test_placement_determinism() {
    let mut records = NameNodeRecords::new(2, 4);
    records.record_heartbeat("127.0.0.1:8080", 1);
    records.record_heartbeat("127.0.0.1:8081", 1);
    records.record_heartbeat("127.0.0.1:8082", 1);

    let first = records.add_file("a_0", 4).unwrap();
    assert_eq!(first.len(), 1);
    assert_eq!(first[0].len(), 2);
    assert_ne!(first[0][0], first[0][1]);

    let removed = records.remove_file("a_0").unwrap();
    assert_eq!(removed.len(), 1);

    let second = records.add_file("a_0", 4).unwrap();
    assert_eq!(sorted(first[0].clone()), sorted(second[0].clone()));
}

// a created file reads back with one replica set per block
#[test]
fn test_block_count_per_size() {
    let mut records = NameNodeRecords::new(2, 4);
    records.record_heartbeat("127.0.0.1:8080", 1);

    // size 5 with block size 4: two blocks
    let created = records.add_file("hello.txt", 5).unwrap();
    assert_eq!(created.len(), 2);
    assert_eq!(records.get_file_addresses("hello.txt").unwrap().len(), 2);

    // size exactly 4: one block
    let created = records.add_file("exact", 4).unwrap();
    assert_eq!(created.len(), 1);

    // size 0: no blocks
    let created = records.add_file("zero", 0).unwrap();
    assert_eq!(created.len(), 0);
    assert_eq!(records.get_file_addresses("zero").unwrap().len(), 0);
}

// update shrinking a file removes the trailing placements and later reads see
// the new count
#[test]
fn test_update_shrink() {
    let mut records = NameNodeRecords::new(2, 4);
    records.record_heartbeat("127.0.0.1:8080", 1);
    records.record_heartbeat("127.0.0.1:8081", 1);

    let created = records.add_file("hello.txt", 5).unwrap();
    assert_eq!(created.len(), 2);

    // shrink to one block: one write target and one delete target come back
    let updated = records.update_file("hello.txt", 2).unwrap();
    assert_eq!(updated.len(), 2);
    assert_eq!(updated[0].len(), 2);
    assert_eq!(updated[1].len(), 2);

    let read = records.get_file_addresses("hello.txt").unwrap();
    assert_eq!(read.len(), 1);
}

// update of an unknown path behaves as a create (previous count zero)
#[test]
fn test_update_missing_path_creates() {
    let mut records = NameNodeRecords::new(1, 4);
    records.record_heartbeat("127.0.0.1:8080", 1);
    let updated = records.update_file("fresh", 6).unwrap();
    assert_eq!(updated.len(), 2);
    assert_eq!(records.get_file_addresses("fresh").unwrap().len(), 2);
}

// ids are assigned monotonically from zero, once per distinct address
#[test]
fn test_datanode_ids_monotonic() {
    let mut records = NameNodeRecords::new(1, 4096);
    records.add_datanode("127.0.0.1:5000");
    records.add_datanode("127.0.0.1:5001");
    records.add_datanode("127.0.0.1:5000");
    records.add_datanode("127.0.0.1:5002");
    let statuses = records.get_datanode_statuses();
    assert_eq!(statuses.len(), 3);
    assert_eq!(statuses[0].id, 0);
    assert_eq!(statuses[1].id, 1);
    assert_eq!(statuses[2].id, 2);
}

// placement is recorded once: an update consults the recorded placement even
// after the registry has grown, and only new files see the new node
#[test]
fn test_update_keeps_recorded_placement() {
    let mut records = NameNodeRecords::new(2, 4);
    records.record_heartbeat("127.0.0.1:8080", 1);
    let created = records.add_file("once.txt", 3).unwrap();
    assert_eq!(created, vec![vec!["127.0.0.1:8080".to_string()]]);

    records.record_heartbeat("127.0.0.1:8081", 2);
    let updated = records.update_file("once.txt", 3).unwrap();
    assert_eq!(updated, vec![vec!["127.0.0.1:8080".to_string()]]);
    let read = records.get_file_addresses("once.txt").unwrap();
    assert_eq!(read, vec![vec!["127.0.0.1:8080".to_string()]]);

    // a growing update assigns fresh placements for the new indices only
    let grown = records.update_file("once.txt", 6).unwrap();
    assert_eq!(grown.len(), 2);
    assert_eq!(grown[0], vec!["127.0.0.1:8080".to_string()]);
    assert_eq!(grown[1].len(), 2);

    // a file created now does use the grown registry
    let fresh = records.add_file("fresh.txt", 3).unwrap();
    assert_eq!(fresh[0].len(), 2);
}

// delete of a missing path yields an empty list and succeeds
#[test]
fn test_delete_missing_path() {
    let mut records = NameNodeRecords::new(1, 4);
    let removed = records.remove_file("ghost").unwrap();
    assert!(removed.is_empty());
}
