use vstd::prelude::*;

use crate::block_records::BlockRecords;
use crate::names::block_name;
use crate::names::block_name_spec;
use crate::names::str_eq;
use crate::placement::block_id;
use crate::placement::block_id_spec;
use crate::placement::placement_spec;
use crate::placement::select_replicas;
use crate::storage::copy_string;
use crate::table::StrTable;
use crate::DfsError;

verus! {

/// One entry of the DataNode registry.
pub struct DataNodeInfo {
    /// Monotonically assigned registration id.
    pub id: u64,
    /// The DataNode's network address.
    pub addr: String,
    /// Liveness flag; set on first heartbeat and never cleared in this
    /// revision.
    pub alive: bool,
}

/// One row of a system status report.
pub struct NodeStatus {
    /// The node's network address.
    pub node_address: String,
    /// Whether the node is known to be online.
    pub is_online: bool,
}

/// A full system status report: the NameNode's own status, one row per
/// registered DataNode, and the DataNode count.
pub struct SystemInfoResponse {
    /// Status of the NameNode itself.
    pub namenode: NodeStatus,
    /// Status of every registered DataNode, in registration order.
    pub nodes: Vec<NodeStatus>,
    /// Number of registered DataNodes.
    pub num_datanodes: u64,
}

/// The id used to key a file's block at the given index in the placement map.
pub open spec fn file_block_id(path: Seq<char>, index: nat) -> u64 {
    block_id_spec(block_name_spec(path, index))
}

/// The number of blocks a file of `size` bytes occupies: `size / block`
/// rounded up.
pub open spec fn num_blocks_of(size: nat, block: nat) -> nat
    recommends
        block >= 1,
{
    if size % block == 0 {
        size / block
    } else {
        size / block + 1
    }
}

/// The placement map after placements for blocks `[0, n)` of a file are
/// recorded, in index order.
pub open spec fn record_blocks(
    m: Map<u64, Seq<Seq<char>>>,
    registry: Seq<Seq<char>>,
    path: Seq<char>,
    n: nat,
    r: nat,
) -> Map<u64, Seq<Seq<char>>>
    decreases n,
{
    if n == 0 {
        m
    } else {
        record_blocks(m, registry, path, (n - 1) as nat, r).insert(
            file_block_id(path, (n - 1) as nat),
            placement_spec(registry, block_name_spec(path, (n - 1) as nat), r),
        )
    }
}

/// The placement map after placements for blocks `[0, n)` of a file are
/// ensured, in index order: a held entry is kept (placement is recorded once
/// and consulted afterwards), a missing one is freshly assigned from the
/// registry and recorded.
pub open spec fn ensure_blocks(
    m: Map<u64, Seq<Seq<char>>>,
    registry: Seq<Seq<char>>,
    path: Seq<char>,
    n: nat,
    r: nat,
) -> Map<u64, Seq<Seq<char>>>
    decreases n,
{
    if n == 0 {
        m
    } else {
        let prev = ensure_blocks(m, registry, path, (n - 1) as nat, r);
        let id = file_block_id(path, (n - 1) as nat);
        if prev.contains_key(id) {
            prev
        } else {
            prev.insert(id, placement_spec(registry, block_name_spec(path, (n - 1) as nat), r))
        }
    }
}

/// The replica sets returned while blocks `[0, n)` of a file are ensured, in
/// index order: the recorded set where one is held, the freshly assigned one
/// otherwise.
pub open spec fn ensure_lists(
    m: Map<u64, Seq<Seq<char>>>,
    registry: Seq<Seq<char>>,
    path: Seq<char>,
    n: nat,
    r: nat,
) -> Seq<Seq<Seq<char>>>
    decreases n,
{
    if n == 0 {
        Seq::empty()
    } else {
        let prev = ensure_blocks(m, registry, path, (n - 1) as nat, r);
        let id = file_block_id(path, (n - 1) as nat);
        let entry = if prev.contains_key(id) {
            prev[id]
        } else {
            placement_spec(registry, block_name_spec(path, (n - 1) as nat), r)
        };
        ensure_lists(m, registry, path, (n - 1) as nat, r).push(entry)
    }
}

/// The placement map after the placements of blocks `[lo, hi)` of a file are
/// removed, in index order.
pub open spec fn drain_map(
    m: Map<u64, Seq<Seq<char>>>,
    path: Seq<char>,
    lo: nat,
    hi: nat,
) -> Map<u64, Seq<Seq<char>>>
    decreases hi - lo,
{
    if lo >= hi {
        m
    } else {
        drain_map(m.remove(file_block_id(path, lo)), path, lo + 1, hi)
    }
}

/// The address lists collected while the placements of blocks `[lo, hi)` of a
/// file are removed in index order; an index whose placement entry was
/// already lost yields an empty list (the loss is swallowed, as deletes are
/// idempotent).
pub open spec fn drain_lists(
    m: Map<u64, Seq<Seq<char>>>,
    path: Seq<char>,
    lo: nat,
    hi: nat,
) -> Seq<Seq<Seq<char>>>
    decreases hi - lo,
{
    if lo >= hi {
        Seq::empty()
    } else {
        let id = file_block_id(path, lo);
        let entry = if m.contains_key(id) {
            m[id]
        } else {
            Seq::empty()
        };
        seq![entry] + drain_lists(m.remove(id), path, lo + 1, hi)
    }
}

/// Every block of the file, up to index `n`, has a recorded placement.
pub open spec fn all_ids_present(m: Map<u64, Seq<Seq<char>>>, path: Seq<char>, n: nat) -> bool {
    forall|i: nat| i < n ==> m.contains_key(#[trigger] file_block_id(path, i))
}

/// Every recorded replica set is non-empty and duplicate-free and names only
/// registered addresses. Registrations only grow the registry in this
/// revision, so a set recorded against an earlier registry still satisfies
/// this.
pub open spec fn placements_wf(blocks: Map<u64, Seq<Seq<char>>>, registry: Seq<Seq<char>>) -> bool {
    &&& forall|id: u64| blocks.contains_key(id) ==> (#[trigger] blocks[id]).len() >= 1
    &&& forall|id: u64|
        blocks.contains_key(id) ==> (#[trigger] blocks[id]).no_duplicates()
    &&& forall|id: u64, j: int|
        blocks.contains_key(id) && 0 <= j < blocks[id].len() ==> registry.contains(
            #[trigger] blocks[id][j],
        )
}

proof fn lemma_placements_wf_grow(
    blocks: Map<u64, Seq<Seq<char>>>,
    registry: Seq<Seq<char>>,
    addr: Seq<char>,
)
    requires
        placements_wf(blocks, registry),
    ensures
        placements_wf(blocks, registry.push(addr)),
{
    assert forall|id: u64, j: int|
        blocks.contains_key(id) && 0 <= j < blocks[id].len() implies registry.push(addr).contains(
        #[trigger] blocks[id][j],
    ) by {
        let k = choose|k: int| 0 <= k < registry.len() && registry[k] == blocks[id][j];
        assert(registry.push(addr)[k] == blocks[id][j]);
    }
}

proof fn lemma_placements_wf_insert(
    blocks: Map<u64, Seq<Seq<char>>>,
    registry: Seq<Seq<char>>,
    id: u64,
    v: Seq<Seq<char>>,
)
    requires
        placements_wf(blocks, registry),
        v.len() >= 1,
        v.no_duplicates(),
        forall|j: int| 0 <= j < v.len() ==> registry.contains(#[trigger] v[j]),
    ensures
        placements_wf(blocks.insert(id, v), registry),
{
}

/// Bookkeeper for the NameNode: the DataNode registry, the heartbeat table,
/// the block placement map, and the file index.
pub struct NameNodeRecords {
    /// Max block size in bytes.
    block_size: usize,
    /// Desired number of replicas for each block.
    replication_count: usize,
    /// The DataNode registry, in registration order; a node's id is its
    /// registration position, so ids are assigned monotonically from zero.
    datanodes: Vec<DataNodeInfo>,
    /// Maps block ids to the addresses holding the block.
    block_records: BlockRecords,
    /// Maps DataNode addresses to the time of their last heartbeat.
    heartbeat_records: StrTable<i64>,
    /// Maps file paths to the number of blocks the file occupies.
    file_records: StrTable<usize>,
}

impl NameNodeRecords {
    /// The registered DataNode addresses, in registration order.
    pub closed spec fn registry(self) -> Seq<Seq<char>> {
        self.datanodes@.map_values(|d: DataNodeInfo| d.addr@)
    }

    /// The registered DataNodes as (address, alive) rows, in registration
    /// order.
    pub closed spec fn nodes(self) -> Seq<(Seq<char>, bool)> {
        self.datanodes@.map_values(|d: DataNodeInfo| (d.addr@, d.alive))
    }

    /// The registered DataNodes' ids, in registration order.
    pub closed spec fn node_ids(self) -> Seq<u64> {
        self.datanodes@.map_values(|d: DataNodeInfo| d.id)
    }

    /// The file index: path to block count.
    pub closed spec fn files(self) -> Map<Seq<char>, usize> {
        self.file_records.view()
    }

    /// The placement map: block id to replica addresses.
    pub closed spec fn blocks(self) -> Map<u64, Seq<Seq<char>>> {
        self.block_records.view()
    }

    /// The heartbeat table: address to last-seen timestamp.
    pub closed spec fn heartbeats(self) -> Map<Seq<char>, i64> {
        self.heartbeat_records.view()
    }

    /// The configured block size.
    pub closed spec fn block_size_spec(self) -> nat {
        self.block_size as nat
    }

    /// The configured replication factor.
    pub closed spec fn replication_spec(self) -> nat {
        self.replication_count as nat
    }

    /// Well-formedness: a usable configuration, a registry without duplicate
    /// addresses whose ids are the registration positions, and a placement
    /// map whose every replica set is duplicate-free and names registered
    /// addresses only.
    pub closed spec fn wf(self) -> bool {
        &&& self.block_size >= 1
        &&& self.replication_count >= 1
        &&& self.registry().no_duplicates()
        &&& forall|i: int|
            0 <= i < self.datanodes@.len() ==> (#[trigger] self.datanodes@[i]).id == i as u64
        &&& placements_wf(self.blocks(), self.registry())
        &&& self.heartbeat_records.wf()
        &&& self.file_records.wf()
    }

    /// Law (monotonic id assignment): DataNode ids are assigned in strictly
    /// increasing order; the node registered i-th carries id i, so the first
    /// is id zero.
    pub proof fn lemma_ids_monotonic(self)
        requires
            self.wf(),
        ensures
            self.node_ids().len() == self.nodes().len(),
            forall|i: int| 0 <= i < self.node_ids().len() ==> self.node_ids()[i] == i as u64,
    {
    }

    /// The configuration bounds that well-formedness carries, for use with
    /// the boundary laws on `num_blocks_of`.
    pub proof fn lemma_wf_config(self)
        requires
            self.wf(),
        ensures
            self.block_size_spec() >= 1,
            self.replication_spec() >= 1,
    {
    }

    pub fn new(replication_count: usize, block_size: usize) -> (r: NameNodeRecords)
        requires
            replication_count >= 1,
            block_size >= 1,
        ensures
            r.wf(),
            r.block_size_spec() == block_size,
            r.replication_spec() == replication_count,
            r.registry() == Seq::<Seq<char>>::empty(),
            r.nodes() == Seq::<(Seq<char>, bool)>::empty(),
            r.files() == Map::<Seq<char>, usize>::empty(),
            r.blocks() == Map::<u64, Seq<Seq<char>>>::empty(),
            r.heartbeats() == Map::<Seq<char>, i64>::empty(),
    {
        let r = NameNodeRecords {
            block_size,
            replication_count,
            datanodes: Vec::new(),
            block_records: BlockRecords::new(),
            heartbeat_records: StrTable::new(),
            file_records: StrTable::new(),
        };
        proof {
            assert(r.registry() =~= Seq::<Seq<char>>::empty());
            assert(r.nodes() =~= Seq::<(Seq<char>, bool)>::empty());
        }
        r
    }

    /// Returns a copy of every registry entry, in registration order.
    pub fn get_datanode_statuses(&self) -> (r: Vec<DataNodeInfo>)
        ensures
            r@.len() == self.nodes().len(),
            forall|i: int|
                0 <= i < r@.len() ==> r@[i].addr@ == self.nodes()[i].0 && r@[i].alive
                    == self.nodes()[i].1,
            forall|i: int| 0 <= i < r@.len() ==> r@[i].id == self.node_ids()[i],
    {
        let mut out: Vec<DataNodeInfo> = Vec::new();
        let mut i: usize = 0;
        while i < self.datanodes.len()
            invariant
                i <= self.datanodes@.len(),
                out@.len() == i,
                forall|j: int|
                    0 <= j < i ==> out@[j].addr@ == self.nodes()[j].0 && out@[j].alive
                        == self.nodes()[j].1,
                forall|j: int| 0 <= j < i ==> out@[j].id == self.node_ids()[j],
            decreases self.datanodes@.len() - i,
        {
            let d = &self.datanodes[i];
            out.push(DataNodeInfo { id: d.id, addr: copy_string(&d.addr), alive: d.alive });
            i = i + 1;
        }
        out
    }

    /// Builds a system status report: the NameNode (always online), one row
    /// per registered DataNode, and the DataNode count. A pure read; it
    /// succeeds whatever the registry holds, also when it is empty.
    pub fn system_status(&self, self_address: &str) -> (r: SystemInfoResponse)
        ensures
            r.namenode.node_address@ == self_address@,
            r.namenode.is_online,
            r.nodes@.len() == self.nodes().len(),
            forall|i: int|
                0 <= i < r.nodes@.len() ==> r.nodes@[i].node_address@ == self.nodes()[i].0
                    && r.nodes@[i].is_online == self.nodes()[i].1,
            r.num_datanodes == self.nodes().len(),
    {
        let namenode = NodeStatus { node_address: self_address.to_owned(), is_online: true };
        let mut nodes: Vec<NodeStatus> = Vec::new();
        let mut i: usize = 0;
        while i < self.datanodes.len()
            invariant
                i <= self.datanodes@.len(),
                nodes@.len() == i,
                forall|j: int|
                    0 <= j < i ==> nodes@[j].node_address@ == self.nodes()[j].0
                        && nodes@[j].is_online == self.nodes()[j].1,
            decreases self.datanodes@.len() - i,
        {
            let d = &self.datanodes[i];
            nodes.push(NodeStatus { node_address: copy_string(&d.addr), is_online: d.alive });
            i = i + 1;
        }
        let num_datanodes = self.datanodes.len() as u64;
        SystemInfoResponse { namenode, nodes, num_datanodes }
    }

    /// Returns whether an address is registered.
    fn is_registered(&self, addr: &str) -> (r: bool)
        ensures
            r == self.registry().contains(addr@),
    {
        let mut i: usize = 0;
        while i < self.datanodes.len()
            invariant
                i <= self.datanodes@.len(),
                forall|j: int| 0 <= j < i ==> self.registry()[j] != addr@,
            decreases self.datanodes@.len() - i,
        {
            if str_eq(self.datanodes[i].addr.as_str(), addr) {
                proof {
                    assert(self.registry()[i as int] == addr@);
                }
                return true;
            }
            i = i + 1;
        }
        proof {
            if self.registry().contains(addr@) {
                let j = choose|j: int|
                    0 <= j < self.registry().len() && self.registry()[j] == addr@;
            }
        }
        false
    }

    /// Registers a DataNode address, assigning it a fresh monotonic id and
    /// marking it alive. Already-registered addresses are left as they are.
    pub fn add_datanode(&mut self, addr: &str)
        requires
            old(self).wf(),
        ensures
            final(self).wf(),
            old(self).registry().contains(addr@) ==> final(self).nodes() == old(self).nodes(),
            !old(self).registry().contains(addr@) ==> final(self).nodes() == old(self).nodes().push((addr@, true)),
            !old(self).registry().contains(addr@) ==> final(self).registry() == old(self).registry().push(addr@),
            old(self).registry().contains(addr@) ==> final(self).registry() == old(self).registry(),
            final(self).files() == old(self).files(),
            final(self).blocks() == old(self).blocks(),
            final(self).heartbeats() == old(self).heartbeats(),
            final(self).block_size_spec() == old(self).block_size_spec(),
            final(self).replication_spec() == old(self).replication_spec(),
    {
        if self.is_registered(addr) {
            return ;
        }
        let new_id = self.datanodes.len() as u64;
        let info = DataNodeInfo { id: new_id, addr: addr.to_owned(), alive: true };
        proof {
            lemma_placements_wf_grow(self.blocks(), self.registry(), addr@);
            let ghost ds = self.datanodes@;
            assert(ds.push(info).map_values(|d: DataNodeInfo| d.addr@) =~= self.registry().push(
                addr@,
            ));
            assert(ds.push(info).map_values(|d: DataNodeInfo| (d.addr@, d.alive))
                =~= self.nodes().push((addr@, true)));
        }
        self.datanodes.push(info);
    }

    /// Ingests one heartbeat: a first heartbeat from an address registers it
    /// as a DataNode; every heartbeat sets the address's entry in the
    /// heartbeat table to `now`.
    pub fn record_heartbeat(&mut self, address: &str, now: i64)
        requires
            old(self).wf(),
        ensures
            final(self).wf(),
            final(self).heartbeats() == old(self).heartbeats().insert(address@, now),
            old(self).heartbeats().contains_key(address@) ==> (final(self).nodes() == old(self).nodes() && final(self).registry() == old(self).registry()),
            (!old(self).heartbeats().contains_key(address@) && !old(self).registry().contains(address@)) ==> (final(self).nodes() == old(self).nodes().push((address@, true)) && final(self).registry() == old(self).registry().push(address@)),
            (!old(self).heartbeats().contains_key(address@) && old(self).registry().contains(address@)) ==> (final(self).nodes() == old(self).nodes() && final(self).registry() == old(self).registry()),
            final(self).files() == old(self).files(),
            final(self).blocks() == old(self).blocks(),
            final(self).block_size_spec() == old(self).block_size_spec(),
            final(self).replication_spec() == old(self).replication_spec(),
    {
        if self.heartbeat_records.get(address).is_none() {
            self.add_datanode(address);
        }
        self.heartbeat_records.insert(address, now);
    }
}

impl NameNodeRecords {
    /// Returns the timestamp of the address's most recent heartbeat, if one
    /// was ever received.
    pub fn get_heartbeat(&self, address: &str) -> (r: Option<i64>)
        requires
            self.wf(),
        ensures
            match r {
                Some(t) => self.heartbeats().contains_key(address@) && self.heartbeats()[address@]
                    == t,
                None => !self.heartbeats().contains_key(address@),
            },
    {
        self.heartbeat_records.get(address)
    }
}

/// Relies on `std::time::SystemTime::now` and chrono's conversion from
/// `SystemTime`: the current wall-clock time as seconds since the epoch, with
/// a clock before the epoch yielding a negative timestamp rather than a
/// panic. Nothing is promised of the value; callers state only what holds of
/// every timestamp.
#[verifier::external_body]
fn now_timestamp() -> i64 {
    let now = std::time::SystemTime::now();
    chrono::DateTime::<chrono::Utc>::from(now).timestamp()
}

impl NameNodeRecords {
    /// Ingests one heartbeat stamped with the current wall-clock time. The
    /// address's entry afterwards holds whatever the clock returned; all
    /// other entries are untouched.
    pub fn record_heartbeat_now(&mut self, address: &str)
        requires
            old(self).wf(),
        ensures
            final(self).wf(),
            final(self).heartbeats().dom() == old(self).heartbeats().dom().insert(address@),
            forall|a: Seq<char>|
                (a != address@ && old(self).heartbeats().contains_key(a)) ==> final(self).heartbeats()[a] == old(self).heartbeats()[a],
            old(self).heartbeats().contains_key(address@) ==> final(self).nodes() == old(self).nodes(),
            (!old(self).heartbeats().contains_key(address@) && !old(self).registry().contains(address@)) ==> final(self).nodes() == old(self).nodes().push((address@, true)),
            (!old(self).heartbeats().contains_key(address@) && old(self).registry().contains(address@)) ==> final(self).nodes() == old(self).nodes(),
            final(self).files() == old(self).files(),
            final(self).blocks() == old(self).blocks(),
            final(self).block_size_spec() == old(self).block_size_spec(),
            final(self).replication_spec() == old(self).replication_spec(),
    {
        let now = now_timestamp();
        self.record_heartbeat(address, now);
        proof {
            assert(final(self).heartbeats().dom() =~= old(self).heartbeats().dom().insert(
                address@,
            ));
        }
    }
}

impl NameNodeRecords {
    /// Returns the registered addresses, in registration order.
    fn addr_list(&self) -> (r: Vec<String>)
        ensures
            r.deep_view() == self.registry(),
    {
        let mut out: Vec<String> = Vec::new();
        let mut i: usize = 0;
        while i < self.datanodes.len()
            invariant
                i <= self.datanodes@.len(),
                out@.len() == i,
                forall|j: int| 0 <= j < i ==> out@[j]@ == self.registry()[j],
            decreases self.datanodes@.len() - i,
        {
            out.push(copy_string(&self.datanodes[i].addr));
            i = i + 1;
        }
        proof {
            assert(out.deep_view() =~= self.registry());
        }
        out
    }

    /// Assigns and records the placement for one block. Fails with
    /// `no-capacity` exactly when the registry is empty; otherwise records
    /// and returns `min(R, |registry|)` pairwise distinct DataNode addresses
    /// chosen deterministically from the block name and the registry.
    fn add_block(&mut self, block_path: &str) -> (r: Result<Vec<String>, DfsError>)
        requires
            old(self).wf(),
        ensures
            final(self).wf(),
            final(self).registry() == old(self).registry(),
            final(self).nodes() == old(self).nodes(),
            final(self).files() == old(self).files(),
            final(self).heartbeats() == old(self).heartbeats(),
            final(self).block_size_spec() == old(self).block_size_spec(),
            final(self).replication_spec() == old(self).replication_spec(),
            old(self).registry().len() == 0 ==> (r is Err && r->Err_0 == DfsError::NoCapacity
                && final(self).blocks() == old(self).blocks()),
            old(self).registry().len() > 0 ==> (r is Ok && ({
                let placed = placement_spec(
                    old(self).registry(),
                    block_path@,
                    old(self).replication_spec(),
                );
                &&& r->Ok_0.deep_view() == placed
                &&& placed.no_duplicates()
                &&& placed.len() == vstd::math::min(
                    old(self).replication_spec() as int,
                    old(self).registry().len() as int,
                )
                &&& forall|j: int|
                    0 <= j < placed.len() ==> old(self).registry().contains(#[trigger] placed[j])
                &&& final(self).blocks() == old(self).blocks().insert(
                    block_id_spec(block_path@),
                    placed,
                )
            })),
    {
        if self.datanodes.len() == 0 {
            return Err(DfsError::NoCapacity);
        }
        let registry = self.addr_list();
        let selected = select_replicas(&registry, block_path, self.replication_count);
        let id = block_id(block_path);
        proof {
            lemma_placements_wf_insert(
                self.blocks(),
                self.registry(),
                block_id_spec(block_path@),
                selected.deep_view(),
            );
        }
        match self.block_records.add_block_to_records(id, selected) {
            Ok(datanodes) => Ok(datanodes),
            Err(e) => Err(e),
        }
    }

    /// Looks up the recorded placement for one block, assigning and recording
    /// a fresh one only when none is held: placement is computed once and
    /// consulted afterwards. Fails with `no-capacity` exactly when a fresh
    /// placement is needed and the registry is empty.
    fn ensure_block(&mut self, block_path: &str) -> (r: Result<Vec<String>, DfsError>)
        requires
            old(self).wf(),
        ensures
            final(self).wf(),
            final(self).registry() == old(self).registry(),
            final(self).nodes() == old(self).nodes(),
            final(self).files() == old(self).files(),
            final(self).heartbeats() == old(self).heartbeats(),
            final(self).block_size_spec() == old(self).block_size_spec(),
            final(self).replication_spec() == old(self).replication_spec(),
            ({
                let id = block_id_spec(block_path@);
                if old(self).blocks().contains_key(id) {
                    &&& r is Ok
                    &&& r->Ok_0.deep_view() == old(self).blocks()[id]
                    &&& final(self).blocks() == old(self).blocks()
                } else if old(self).registry().len() > 0 {
                    let placed = placement_spec(
                        old(self).registry(),
                        block_path@,
                        old(self).replication_spec(),
                    );
                    &&& r is Ok
                    &&& r->Ok_0.deep_view() == placed
                    &&& final(self).blocks() == old(self).blocks().insert(id, placed)
                } else {
                    &&& r is Err
                    &&& r->Err_0 == DfsError::NoCapacity
                    &&& final(self).blocks() == old(self).blocks()
                }
            }),
    {
        let id = block_id(block_path);
        match self.block_records.get_block_datanodes(&id) {
            Ok(recorded) => Ok(recorded),
            Err(_) => self.add_block(block_path),
        }
    }

    /// Adds a file: computes its block count from the declared size, assigns
    /// and records a placement for every block, and registers the path in the
    /// file index (overwriting any previous entry: create overwrites). Fails
    /// with `no-capacity` exactly when at least one block is needed and no
    /// DataNode is registered; the registry, heartbeat table, and
    /// configuration are never touched. On success returns one replica set
    /// per block, in block-index order.
    pub fn add_file(&mut self, file_path: &str, file_size: usize) -> (r: Result<
        Vec<Vec<String>>,
        DfsError,
    >)
        requires
            old(self).wf(),
        ensures
            final(self).wf(),
            final(self).registry() == old(self).registry(),
            final(self).nodes() == old(self).nodes(),
            final(self).heartbeats() == old(self).heartbeats(),
            final(self).block_size_spec() == old(self).block_size_spec(),
            final(self).replication_spec() == old(self).replication_spec(),
            ({
                let n = num_blocks_of(file_size as nat, old(self).block_size_spec());
                let reg = old(self).registry();
                let rep = old(self).replication_spec();
                if reg.len() == 0 && n > 0 {
                    &&& r is Err
                    &&& r->Err_0 == DfsError::NoCapacity
                    &&& final(self).files() == old(self).files()
                    &&& final(self).blocks() == old(self).blocks()
                } else {
                    &&& r is Ok
                    &&& r->Ok_0.deep_view().len() == n
                    &&& forall|i: int|
                        0 <= i < n ==> #[trigger] r->Ok_0.deep_view()[i] == placement_spec(
                            reg,
                            block_name_spec(file_path@, i as nat),
                            rep,
                        )
                    &&& forall|i: int|
                        0 <= i < n ==> (#[trigger] r->Ok_0.deep_view()[i]).no_duplicates()
                            && r->Ok_0.deep_view()[i].len() == vstd::math::min(
                            rep as int,
                            reg.len() as int,
                        )
                    &&& forall|i: int, k: int|
                        0 <= i < n && 0 <= k < r->Ok_0.deep_view()[i].len() ==> reg.contains(
                            #[trigger] r->Ok_0.deep_view()[i][k],
                        )
                    &&& final(self).files() == old(self).files().insert(file_path@, n as usize)
                    &&& final(self).blocks() == record_blocks(
                        old(self).blocks(),
                        reg,
                        file_path@,
                        n,
                        rep,
                    )
                }
            }),
    {
        let num_blocks = ceil_div(file_size, self.block_size);
        if num_blocks > 0 && self.datanodes.len() == 0 {
            return Err(DfsError::NoCapacity);
        }
        let addrs = self.place_blocks(file_path, num_blocks);
        self.file_records.insert(file_path, num_blocks);
        Ok(addrs)
    }

    /// Assigns and records placements for blocks `[0, n)` of a file, in index
    /// order, and returns the replica sets.
    fn place_blocks(&mut self, file_path: &str, n: usize) -> (r: Vec<Vec<String>>)
        requires
            old(self).wf(),
            n > 0 ==> old(self).registry().len() > 0,
        ensures
            final(self).wf(),
            final(self).registry() == old(self).registry(),
            final(self).nodes() == old(self).nodes(),
            final(self).files() == old(self).files(),
            final(self).heartbeats() == old(self).heartbeats(),
            final(self).block_size_spec() == old(self).block_size_spec(),
            final(self).replication_spec() == old(self).replication_spec(),
            r.deep_view().len() == n,
            forall|i: int|
                0 <= i < n ==> #[trigger] r.deep_view()[i] == placement_spec(
                    old(self).registry(),
                    block_name_spec(file_path@, i as nat),
                    old(self).replication_spec(),
                ),
            forall|i: int|
                0 <= i < n ==> (#[trigger] r.deep_view()[i]).no_duplicates()
                    && r.deep_view()[i].len() == vstd::math::min(
                    old(self).replication_spec() as int,
                    old(self).registry().len() as int,
                ),
            forall|i: int, k: int|
                0 <= i < n && 0 <= k < r.deep_view()[i].len() ==> old(self).registry().contains(
                    #[trigger] r.deep_view()[i][k],
                ),
            final(self).blocks() == record_blocks(
                old(self).blocks(),
                old(self).registry(),
                file_path@,
                n as nat,
                old(self).replication_spec(),
            ),
    {
        let mut addrs: Vec<Vec<String>> = Vec::new();
        let mut i: usize = 0;
        while i < n
            invariant
                i <= n,
                self.wf(),
                n > 0 ==> self.registry().len() > 0,
                self.registry() == old(self).registry(),
                self.nodes() == old(self).nodes(),
                self.files() == old(self).files(),
                self.heartbeats() == old(self).heartbeats(),
                self.block_size_spec() == old(self).block_size_spec(),
                self.replication_spec() == old(self).replication_spec(),
                addrs.deep_view().len() == i,
                forall|j: int|
                    0 <= j < i ==> #[trigger] addrs.deep_view()[j] == placement_spec(
                        old(self).registry(),
                        block_name_spec(file_path@, j as nat),
                        old(self).replication_spec(),
                    ),
                forall|j: int|
                    0 <= j < i ==> (#[trigger] addrs.deep_view()[j]).no_duplicates()
                        && addrs.deep_view()[j].len() == vstd::math::min(
                        old(self).replication_spec() as int,
                        old(self).registry().len() as int,
                    ),
                forall|j: int, k: int|
                    0 <= j < i && 0 <= k < addrs.deep_view()[j].len() ==> old(
                        self,
                    ).registry().contains(#[trigger] addrs.deep_view()[j][k]),
                self.blocks() == record_blocks(
                    old(self).blocks(),
                    old(self).registry(),
                    file_path@,
                    i as nat,
                    old(self).replication_spec(),
                ),
            decreases n - i,
        {
            let name = block_name(file_path, i);
            let a = match self.add_block(name.as_str()) {
                Ok(a) => a,
                Err(e) => {
                    // the registry is nonempty whenever blocks are placed, so
                    // placement cannot fail here
                    proof {
                        assert(false);
                    }
                    return addrs;
                },
            };
            let ghost prev = addrs.deep_view();
            addrs.push(a);
            i = i + 1;
            proof {
                assert(addrs.deep_view() =~= prev.push(
                    placement_spec(
                        old(self).registry(),
                        block_name_spec(file_path@, (i - 1) as nat),
                        old(self).replication_spec(),
                    ),
                ));
            }
        }
        addrs
    }

    /// Ensures placements for blocks `[0, n)` of a file, in index order:
    /// each recorded placement is consulted and returned as it stands, and a
    /// fresh one is assigned and recorded only where none is held.
    fn ensure_file_blocks(&mut self, file_path: &str, n: usize) -> (r: Vec<Vec<String>>)
        requires
            old(self).wf(),
            n > 0 ==> old(self).registry().len() > 0,
        ensures
            final(self).wf(),
            final(self).registry() == old(self).registry(),
            final(self).nodes() == old(self).nodes(),
            final(self).files() == old(self).files(),
            final(self).heartbeats() == old(self).heartbeats(),
            final(self).block_size_spec() == old(self).block_size_spec(),
            final(self).replication_spec() == old(self).replication_spec(),
            r.deep_view().len() == n,
            r.deep_view() == ensure_lists(
                old(self).blocks(),
                old(self).registry(),
                file_path@,
                n as nat,
                old(self).replication_spec(),
            ),
            final(self).blocks() == ensure_blocks(
                old(self).blocks(),
                old(self).registry(),
                file_path@,
                n as nat,
                old(self).replication_spec(),
            ),
            forall|i: int| 0 <= i < n ==> (#[trigger] r.deep_view()[i]).no_duplicates(),
            forall|i: int, k: int|
                0 <= i < n && 0 <= k < r.deep_view()[i].len() ==> old(self).registry().contains(
                    #[trigger] r.deep_view()[i][k],
                ),
    {
        let mut addrs: Vec<Vec<String>> = Vec::new();
        let mut i: usize = 0;
        while i < n
            invariant
                i <= n,
                self.wf(),
                n > 0 ==> self.registry().len() > 0,
                self.registry() == old(self).registry(),
                self.nodes() == old(self).nodes(),
                self.files() == old(self).files(),
                self.heartbeats() == old(self).heartbeats(),
                self.block_size_spec() == old(self).block_size_spec(),
                self.replication_spec() == old(self).replication_spec(),
                addrs.deep_view().len() == i,
                addrs.deep_view() == ensure_lists(
                    old(self).blocks(),
                    old(self).registry(),
                    file_path@,
                    i as nat,
                    old(self).replication_spec(),
                ),
                self.blocks() == ensure_blocks(
                    old(self).blocks(),
                    old(self).registry(),
                    file_path@,
                    i as nat,
                    old(self).replication_spec(),
                ),
                forall|j: int| 0 <= j < i ==> (#[trigger] addrs.deep_view()[j]).no_duplicates(),
                forall|j: int, k: int|
                    0 <= j < i && 0 <= k < addrs.deep_view()[j].len() ==> old(
                        self,
                    ).registry().contains(#[trigger] addrs.deep_view()[j][k]),
            decreases n - i,
        {
            let name = block_name(file_path, i);
            let a = match self.ensure_block(name.as_str()) {
                Ok(a) => a,
                Err(e) => {
                    // the registry is nonempty whenever blocks are ensured, so
                    // placement cannot fail here
                    proof {
                        assert(false);
                    }
                    return addrs;
                },
            };
            let ghost prevlists = addrs.deep_view();
            proof {
                let ghost id = file_block_id(file_path@, i as nat);
                assert(self.blocks().contains_key(id));
                assert(a.deep_view() == self.blocks()[id]);
                assert(a.deep_view().no_duplicates());
            }
            addrs.push(a);
            i = i + 1;
            proof {
                assert(addrs.deep_view() =~= ensure_lists(
                    old(self).blocks(),
                    old(self).registry(),
                    file_path@,
                    i as nat,
                    old(self).replication_spec(),
                ));
            }
        }
        addrs
    }
}

/// Computes `⌈a / b⌉`.
pub fn ceil_div(a: usize, b: usize) -> (r: usize)
    requires
        b >= 1,
    ensures
        r == num_blocks_of(a as nat, b as nat),
{
    let q = a / b;
    let rem = a % b;
    if rem == 0 {
        q
    } else {
        proof {
            vstd::arithmetic::div_mod::lemma_fundamental_div_mod(a as int, b as int);
            assert(b as int * q as int >= q as int) by (nonlinear_arith)
                requires
                    b >= 1,
                    q >= 0,
            ;
            assert(q < a);
        }
        q + 1
    }
}

/// Removing the placements of blocks `[lo, hi + 1)` is removing those of
/// `[lo, hi)` and then block `hi`'s; the collected lists grow by block `hi`'s
/// entry of the partly drained map.
proof fn lemma_drain_step(m: Map<u64, Seq<Seq<char>>>, path: Seq<char>, lo: nat, hi: nat)
    requires
        lo <= hi,
    ensures
        drain_map(m, path, lo, (hi + 1) as nat) == drain_map(m, path, lo, hi).remove(
            file_block_id(path, hi),
        ),
        drain_lists(m, path, lo, (hi + 1) as nat) == drain_lists(m, path, lo, hi).push(
            if drain_map(m, path, lo, hi).contains_key(file_block_id(path, hi)) {
                drain_map(m, path, lo, hi)[file_block_id(path, hi)]
            } else {
                Seq::empty()
            },
        ),
    decreases hi - lo,
{
    let id_lo = file_block_id(path, lo);
    let id_hi = file_block_id(path, hi);
    if lo == hi {
        let e_lo: Seq<Seq<char>> = if m.contains_key(id_lo) {
            m[id_lo]
        } else {
            Seq::empty()
        };
        assert(drain_map(m.remove(id_lo), path, (lo + 1) as nat, (hi + 1) as nat) == m.remove(
            id_lo,
        ));
        assert(drain_lists(m.remove(id_lo), path, (lo + 1) as nat, (hi + 1) as nat)
            == Seq::<Seq<Seq<char>>>::empty());
        assert(drain_lists(m, path, lo, (hi + 1) as nat) == seq![e_lo] + drain_lists(
            m.remove(id_lo),
            path,
            (lo + 1) as nat,
            (hi + 1) as nat,
        ));
        assert(drain_map(m, path, lo, hi) == m);
        assert(drain_lists(m, path, lo, hi) == Seq::<Seq<Seq<char>>>::empty());
        assert(drain_lists(m, path, lo, (hi + 1) as nat) =~= drain_lists(m, path, lo, hi).push(
            e_lo,
        ));
    } else {
        let m2 = m.remove(id_lo);
        let e_lo: Seq<Seq<char>> = if m.contains_key(id_lo) {
            m[id_lo]
        } else {
            Seq::empty()
        };
        lemma_drain_step(m2, path, (lo + 1) as nat, hi);
        assert(drain_map(m, path, lo, hi) == drain_map(m2, path, (lo + 1) as nat, hi));
        assert(drain_map(m, path, lo, (hi + 1) as nat) == drain_map(
            m2,
            path,
            (lo + 1) as nat,
            (hi + 1) as nat,
        ));
        assert(drain_lists(m, path, lo, hi) == seq![e_lo] + drain_lists(
            m2,
            path,
            (lo + 1) as nat,
            hi,
        ));
        assert(drain_lists(m, path, lo, (hi + 1) as nat) == seq![e_lo] + drain_lists(
            m2,
            path,
            (lo + 1) as nat,
            (hi + 1) as nat,
        ));
        let entry: Seq<Seq<char>> = if drain_map(m, path, lo, hi).contains_key(id_hi) {
            drain_map(m, path, lo, hi)[id_hi]
        } else {
            Seq::empty()
        };
        assert(drain_lists(m2, path, (lo + 1) as nat, (hi + 1) as nat) == drain_lists(
            m2,
            path,
            (lo + 1) as nat,
            hi,
        ).push(entry));
        assert(drain_lists(m, path, lo, (hi + 1) as nat) =~= drain_lists(m, path, lo, hi).push(
            entry,
        ));
    }
}

impl NameNodeRecords {
    /// Updates a file: computes the new block count from the declared size,
    /// consults the recorded placement of every block `[0, n_new)` that has
    /// one — placement is computed once and kept — and assigns fresh
    /// placements only where none is recorded (the new trailing indices of a
    /// growing file), writes the new count into the file index, and removes
    /// the placements of any trailing blocks `[n_new, n_old)` the file no
    /// longer occupies. Fails with `no-capacity` exactly when at least one
    /// block is needed and no DataNode is registered. On success the returned
    /// list holds the write-target replica sets at indices `[0, n_new)` and
    /// the delete targets of the removed trailing blocks after them, in index
    /// order; a trailing index whose placement entry was lost yields an empty
    /// list (the loss is swallowed: block deletes are idempotent).
    pub fn update_file(&mut self, file_path: &str, file_size: usize) -> (r: Result<
        Vec<Vec<String>>,
        DfsError,
    >)
        requires
            old(self).wf(),
        ensures
            final(self).wf(),
            final(self).registry() == old(self).registry(),
            final(self).nodes() == old(self).nodes(),
            final(self).heartbeats() == old(self).heartbeats(),
            final(self).block_size_spec() == old(self).block_size_spec(),
            final(self).replication_spec() == old(self).replication_spec(),
            ({
                let n_new = num_blocks_of(file_size as nat, old(self).block_size_spec());
                let n_old = if old(self).files().contains_key(file_path@) {
                    old(self).files()[file_path@] as nat
                } else {
                    0
                };
                let reg = old(self).registry();
                let rep = old(self).replication_spec();
                let m1 = ensure_blocks(old(self).blocks(), reg, file_path@, n_new, rep);
                if reg.len() == 0 && n_new > 0 {
                    &&& r is Err
                    &&& r->Err_0 == DfsError::NoCapacity
                    &&& final(self).files() == old(self).files()
                    &&& final(self).blocks() == old(self).blocks()
                } else {
                    &&& r is Ok
                    &&& final(self).files() == old(self).files().insert(
                        file_path@,
                        n_new as usize,
                    )
                    &&& final(self).blocks() == drain_map(m1, file_path@, n_new, n_old)
                    &&& r->Ok_0.deep_view().len() == n_new + (if n_old > n_new {
                        n_old - n_new
                    } else {
                        0
                    })
                    &&& r->Ok_0.deep_view().take(n_new as int) == ensure_lists(
                        old(self).blocks(),
                        reg,
                        file_path@,
                        n_new,
                        rep,
                    )
                    &&& forall|i: int|
                        0 <= i < r->Ok_0.deep_view().len() ==> (#[trigger] r->Ok_0.deep_view()[i]).no_duplicates()
                    &&& forall|i: int, k: int|
                        0 <= i < r->Ok_0.deep_view().len() && 0 <= k < r->Ok_0.deep_view()[i].len()
                            ==> reg.contains(#[trigger] r->Ok_0.deep_view()[i][k])
                    &&& r->Ok_0.deep_view().skip(n_new as int) == drain_lists(
                        m1,
                        file_path@,
                        n_new,
                        n_old,
                    )
                }
            }),
    {
        let num_blocks = ceil_div(file_size, self.block_size);
        if num_blocks > 0 && self.datanodes.len() == 0 {
            return Err(DfsError::NoCapacity);
        }
        let mut addrs = self.ensure_file_blocks(file_path, num_blocks);
        let prev = self.file_records.insert(file_path, num_blocks);
        let prev_count: usize = match prev {
            Some(c) => c,
            None => 0,
        };
        let ghost m1 = self.blocks();
        let ghost base = addrs.deep_view();
        let mut i: usize = num_blocks;
        while i < prev_count
            invariant
                num_blocks <= i,
                i <= prev_count || i == num_blocks,
                self.wf(),
                self.registry() == old(self).registry(),
                self.nodes() == old(self).nodes(),
                self.heartbeats() == old(self).heartbeats(),
                self.files() == old(self).files().insert(file_path@, num_blocks),
                self.block_size_spec() == old(self).block_size_spec(),
                self.replication_spec() == old(self).replication_spec(),
                self.blocks() == drain_map(m1, file_path@, num_blocks as nat, i as nat),
                addrs.deep_view() == base + drain_lists(
                    m1,
                    file_path@,
                    num_blocks as nat,
                    i as nat,
                ),
                base.len() == num_blocks,
                addrs.deep_view().len() == i,
                forall|j: int| 0 <= j < i ==> (#[trigger] addrs.deep_view()[j]).no_duplicates(),
                forall|j: int, k: int|
                    0 <= j < i && 0 <= k < addrs.deep_view()[j].len() ==> old(
                        self,
                    ).registry().contains(#[trigger] addrs.deep_view()[j][k]),
            decreases prev_count - i,
        {
            let name = block_name(file_path, i);
            let id = block_id(name.as_str());
            proof {
                lemma_drain_step(m1, file_path@, num_blocks as nat, i as nat);
            }
            let ghost before = addrs.deep_view();
            let ghost cur = drain_map(m1, file_path@, num_blocks as nat, i as nat);
            let ghost entry = if cur.contains_key(file_block_id(file_path@, i as nat)) {
                cur[file_block_id(file_path@, i as nat)]
            } else {
                Seq::<Seq<char>>::empty()
            };
            proof {
                assert(placements_wf(cur, old(self).registry()));
            }
            match self.block_records.remove_block_from_records(&id) {
                Some(a) => {
                    proof {
                        let ghost fid = file_block_id(file_path@, i as nat);
                        assert(a.deep_view() == cur[fid]);
                        assert(a.deep_view().no_duplicates());
                        assert forall|k: int|
                            0 <= k < a.deep_view().len() implies old(self).registry().contains(
                            #[trigger] a.deep_view()[k],
                        ) by {
                            assert(cur[fid][k] == a.deep_view()[k]);
                        }
                    }
                    addrs.push(a);
                },
                None => {
                    let empty: Vec<String> = Vec::new();
                    proof {
                        assert(empty.deep_view() =~= Seq::<Seq<char>>::empty());
                    }
                    addrs.push(empty);
                },
            }
            proof {
                assert(addrs.deep_view() =~= before.push(entry));
            }
            i = i + 1;
            proof {
                assert(addrs.deep_view() =~= base + drain_lists(
                    m1,
                    file_path@,
                    num_blocks as nat,
                    i as nat,
                ));
            }
        }
        proof {
            assert(addrs.deep_view().skip(num_blocks as int) =~= drain_lists(
                m1,
                file_path@,
                num_blocks as nat,
                (if prev_count > num_blocks {
                    prev_count
                } else {
                    num_blocks
                }) as nat,
            ));
        }
        Ok(addrs)
    }

    /// Deletes a file: removes the path from the file index, removes every
    /// recorded block placement of it, and returns the removed replica sets
    /// in block-index order. A missing path yields an empty list, and an
    /// index whose placement entry was lost yields an empty list: deletion is
    /// idempotent and always succeeds.
    pub fn remove_file(&mut self, file_path: &str) -> (r: Result<Vec<Vec<String>>, DfsError>)
        requires
            old(self).wf(),
        ensures
            final(self).wf(),
            final(self).registry() == old(self).registry(),
            final(self).nodes() == old(self).nodes(),
            final(self).heartbeats() == old(self).heartbeats(),
            final(self).block_size_spec() == old(self).block_size_spec(),
            final(self).replication_spec() == old(self).replication_spec(),
            r is Ok,
            final(self).files() == old(self).files().remove(file_path@),
            ({
                let n_old = if old(self).files().contains_key(file_path@) {
                    old(self).files()[file_path@] as nat
                } else {
                    0
                };
                &&& final(self).blocks() == drain_map(old(self).blocks(), file_path@, 0, n_old)
                &&& r->Ok_0.deep_view() == drain_lists(old(self).blocks(), file_path@, 0, n_old)
                &&& r->Ok_0.deep_view().len() == n_old
                &&& forall|i: int|
                    0 <= i < n_old ==> (#[trigger] r->Ok_0.deep_view()[i]).no_duplicates()
                &&& forall|i: int, k: int|
                    0 <= i < n_old && 0 <= k < r->Ok_0.deep_view()[i].len() ==> old(
                        self,
                    ).registry().contains(#[trigger] r->Ok_0.deep_view()[i][k])
            }),
    {
        let prev = self.file_records.remove(file_path);
        let prev_count: usize = match prev {
            Some(c) => c,
            None => 0,
        };
        let ghost m0 = self.blocks();
        let mut addrs: Vec<Vec<String>> = Vec::new();
        let mut i: usize = 0;
        while i < prev_count
            invariant
                i <= prev_count,
                self.wf(),
                self.registry() == old(self).registry(),
                self.nodes() == old(self).nodes(),
                self.heartbeats() == old(self).heartbeats(),
                self.files() == old(self).files().remove(file_path@),
                self.block_size_spec() == old(self).block_size_spec(),
                self.replication_spec() == old(self).replication_spec(),
                self.blocks() == drain_map(m0, file_path@, 0, i as nat),
                addrs.deep_view() == drain_lists(m0, file_path@, 0, i as nat),
                addrs.deep_view().len() == i,
                forall|j: int| 0 <= j < i ==> (#[trigger] addrs.deep_view()[j]).no_duplicates(),
                forall|j: int, k: int|
                    0 <= j < i && 0 <= k < addrs.deep_view()[j].len() ==> old(
                        self,
                    ).registry().contains(#[trigger] addrs.deep_view()[j][k]),
            decreases prev_count - i,
        {
            let name = block_name(file_path, i);
            let id = block_id(name.as_str());
            let ghost cur = drain_map(m0, file_path@, 0, i as nat);
            proof {
                lemma_drain_step(m0, file_path@, 0, i as nat);
                assert(placements_wf(cur, old(self).registry()));
            }
            match self.block_records.remove_block_from_records(&id) {
                Some(a) => {
                    proof {
                        let ghost fid = file_block_id(file_path@, i as nat);
                        assert(a.deep_view() == cur[fid]);
                        assert(a.deep_view().no_duplicates());
                        assert forall|k: int|
                            0 <= k < a.deep_view().len() implies old(self).registry().contains(
                            #[trigger] a.deep_view()[k],
                        ) by {
                            assert(cur[fid][k] == a.deep_view()[k]);
                        }
                    }
                    addrs.push(a);
                },
                None => {
                    let empty: Vec<String> = Vec::new();
                    proof {
                        assert(empty.deep_view() =~= Seq::<Seq<char>>::empty());
                    }
                    addrs.push(empty);
                },
            }
            i = i + 1;
            proof {
                assert(addrs.deep_view() =~= drain_lists(m0, file_path@, 0, i as nat));
            }
        }
        Ok(addrs)
    }

    /// Reads a file's routing map: one replica set per block, in block-index
    /// order. A pure read. A missing path yields an empty list (the client
    /// reports that the file does not exist); a recorded file whose placement
    /// entries are all present yields exactly its block count of replica
    /// sets; a recorded file with a lost placement entry fails with
    /// `internal`.
    pub fn get_file_addresses(&self, file_path: &str) -> (r: Result<Vec<Vec<String>>, DfsError>)
        requires
            self.wf(),
        ensures
            !self.files().contains_key(file_path@) ==> (r is Ok && r->Ok_0.deep_view()
                == Seq::<Seq<Seq<char>>>::empty()),
            r is Ok ==> forall|i: int|
                0 <= i < r->Ok_0.deep_view().len() ==> (#[trigger] r->Ok_0.deep_view()[i]).no_duplicates()
                    && r->Ok_0.deep_view()[i].len() >= 1,
            r is Ok ==> forall|i: int, k: int|
                0 <= i < r->Ok_0.deep_view().len() && 0 <= k < r->Ok_0.deep_view()[i].len()
                    ==> self.registry().contains(#[trigger] r->Ok_0.deep_view()[i][k]),
            self.files().contains_key(file_path@) ==> ({
                let n = self.files()[file_path@] as nat;
                if all_ids_present(self.blocks(), file_path@, n) {
                    &&& r is Ok
                    &&& r->Ok_0.deep_view().len() == n
                    &&& forall|i: int|
                        0 <= i < n ==> #[trigger] r->Ok_0.deep_view()[i]
                            == self.blocks()[file_block_id(file_path@, i as nat)]
                } else {
                    &&& r is Err
                    &&& r->Err_0 == DfsError::Internal
                }
            }),
    {
        let count: usize = match self.file_records.get(file_path) {
            Some(c) => c,
            None => {
                let empty: Vec<Vec<String>> = Vec::new();
                proof {
                    assert(empty.deep_view() =~= Seq::<Seq<Seq<char>>>::empty());
                }
                return Ok(empty);
            },
        };
        let mut addrs: Vec<Vec<String>> = Vec::new();
        let mut i: usize = 0;
        while i < count
            invariant
                i <= count,
                self.wf(),
                self.files().contains_key(file_path@),
                count == self.files()[file_path@],
                addrs.deep_view().len() == i,
                forall|j: nat|
                    j < i ==> self.blocks().contains_key(#[trigger] file_block_id(file_path@, j)),
                forall|j: int|
                    0 <= j < i ==> #[trigger] addrs.deep_view()[j] == self.blocks()[file_block_id(
                        file_path@,
                        j as nat,
                    )],
                forall|j: int|
                    0 <= j < i ==> (#[trigger] addrs.deep_view()[j]).no_duplicates()
                        && addrs.deep_view()[j].len() >= 1,
                forall|j: int, k: int|
                    0 <= j < i && 0 <= k < addrs.deep_view()[j].len() ==> self.registry().contains(
                        #[trigger] addrs.deep_view()[j][k],
                    ),
            decreases count - i,
        {
            let name = block_name(file_path, i);
            let id = block_id(name.as_str());
            match self.block_records.get_block_datanodes(&id) {
                Ok(a) => {
                    let ghost before = addrs.deep_view();
                    proof {
                        let ghost fid = file_block_id(file_path@, i as nat);
                        assert(placements_wf(self.blocks(), self.registry()));
                        assert(a.deep_view() == self.blocks()[fid]);
                        assert(a.deep_view().no_duplicates());
                        assert forall|k: int|
                            0 <= k < a.deep_view().len() implies self.registry().contains(
                            #[trigger] a.deep_view()[k],
                        ) by {
                            assert(self.blocks()[fid][k] == a.deep_view()[k]);
                        }
                    }
                    addrs.push(a);
                    proof {
                        assert(addrs.deep_view() =~= before.push(
                            self.blocks()[file_block_id(file_path@, i as nat)],
                        ));
                    }
                },
                Err(_) => {
                    proof {
                        assert(!self.blocks().contains_key(file_block_id(file_path@, i as nat)));
                        assert(!all_ids_present(
                            self.blocks(),
                            file_path@,
                            self.files()[file_path@] as nat,
                        ));
                    }
                    return Err(DfsError::Internal);
                },
            }
            i = i + 1;
        }
        Ok(addrs)
    }
}

/// Recording placements for blocks `[0, n)` makes every one of their ids
/// present; recording never removes a key.
pub proof fn lemma_record_blocks_present(
    m: Map<u64, Seq<Seq<char>>>,
    registry: Seq<Seq<char>>,
    path: Seq<char>,
    n: nat,
    r: nat,
    i: nat,
)
    requires
        i < n,
    ensures
        record_blocks(m, registry, path, n, r).contains_key(file_block_id(path, i)),
    decreases n,
{
    if i < n - 1 {
        lemma_record_blocks_present(m, registry, path, (n - 1) as nat, r, i);
    }
}

/// Law: after a file of `n` blocks is created, a read of it finds a placement
/// for every block, so by the contracts of `NameNodeRecords::add_file` and
/// `NameNodeRecords::get_file_addresses` the read returns exactly `n` replica
/// sets.
pub proof fn lemma_create_then_read(
    m: Map<u64, Seq<Seq<char>>>,
    registry: Seq<Seq<char>>,
    path: Seq<char>,
    n: nat,
    r: nat,
)
    ensures
        all_ids_present(record_blocks(m, registry, path, n, r), path, n),
{
    assert forall|i: nat| i < n implies record_blocks(m, registry, path, n, r).contains_key(
        #[trigger] file_block_id(path, i),
    ) by {
        lemma_record_blocks_present(m, registry, path, n, r, i);
    }
}

/// Ensuring placements for blocks `[0, n)` leaves every one of their ids
/// present; ensuring never removes a key.
pub proof fn lemma_ensure_blocks_present(
    m: Map<u64, Seq<Seq<char>>>,
    registry: Seq<Seq<char>>,
    path: Seq<char>,
    n: nat,
    r: nat,
    i: nat,
)
    requires
        i < n,
    ensures
        ensure_blocks(m, registry, path, n, r).contains_key(file_block_id(path, i)),
    decreases n,
{
    if i < n - 1 {
        lemma_ensure_blocks_present(m, registry, path, (n - 1) as nat, r, i);
    }
}

/// A key already held keeps its value through an ensure pass: fresh
/// placements are only recorded under ids that held none.
proof fn lemma_ensure_blocks_keeps(
    m: Map<u64, Seq<Seq<char>>>,
    registry: Seq<Seq<char>>,
    path: Seq<char>,
    n: nat,
    r: nat,
    k: u64,
)
    requires
        m.contains_key(k),
    ensures
        ensure_blocks(m, registry, path, n, r).contains_key(k),
        ensure_blocks(m, registry, path, n, r)[k] == m[k],
    decreases n,
{
    if n > 0 {
        lemma_ensure_blocks_keeps(m, registry, path, (n - 1) as nat, r, k);
    }
}

proof fn lemma_ensure_lists_len(
    m: Map<u64, Seq<Seq<char>>>,
    registry: Seq<Seq<char>>,
    path: Seq<char>,
    n: nat,
    r: nat,
)
    ensures
        ensure_lists(m, registry, path, n, r).len() == n,
    decreases n,
{
    if n > 0 {
        lemma_ensure_lists_len(m, registry, path, (n - 1) as nat, r);
    }
}

/// Law (placement recorded once): a block whose placement is already recorded
/// keeps it through an update, and the update returns exactly the recorded
/// replica set for it — by this lemma together with the contract of
/// `NameNodeRecords::update_file`. Fresh placements are assigned only to
/// block indices that hold none: the new trailing indices of a growing file.
pub proof fn lemma_placement_recorded_once(
    m: Map<u64, Seq<Seq<char>>>,
    registry: Seq<Seq<char>>,
    path: Seq<char>,
    n: nat,
    r: nat,
    i: nat,
)
    requires
        i < n,
        m.contains_key(file_block_id(path, i)),
    ensures
        ensure_blocks(m, registry, path, n, r).contains_key(file_block_id(path, i)),
        ensure_blocks(m, registry, path, n, r)[file_block_id(path, i)] == m[file_block_id(
            path,
            i,
        )],
        ensure_lists(m, registry, path, n, r)[i as int] == m[file_block_id(path, i)],
    decreases n,
{
    lemma_ensure_blocks_keeps(m, registry, path, n, r, file_block_id(path, i));
    lemma_ensure_lists_len(m, registry, path, (n - 1) as nat, r);
    if i == n - 1 {
        lemma_ensure_blocks_keeps(m, registry, path, (n - 1) as nat, r, file_block_id(path, i));
    } else {
        lemma_placement_recorded_once(m, registry, path, (n - 1) as nat, r, i);
    }
}

/// With pairwise distinct block ids, each recorded block keeps its own
/// placement: later inserts for the same file do not disturb it.
pub proof fn lemma_record_blocks_values(
    m: Map<u64, Seq<Seq<char>>>,
    registry: Seq<Seq<char>>,
    path: Seq<char>,
    n: nat,
    r: nat,
    i: nat,
)
    requires
        i < n,
        forall|j: nat, k: nat|
            j < k < n ==> #[trigger] file_block_id(path, j) != #[trigger] file_block_id(path, k),
    ensures
        record_blocks(m, registry, path, n, r)[file_block_id(path, i)] == placement_spec(
            registry,
            block_name_spec(path, i),
            r,
        ),
    decreases n,
{
    if i < n - 1 {
        lemma_record_blocks_values(m, registry, path, (n - 1) as nat, r, i);
        assert(file_block_id(path, i) != file_block_id(path, (n - 1) as nat));
    }
}

/// Law (create then read, exactly): when the file's block ids are pairwise
/// distinct, a read after a create returns, for every block, exactly the
/// replica set the create assigned — by this lemma together with the
/// contracts of `NameNodeRecords::add_file` and
/// `NameNodeRecords::get_file_addresses`.
pub proof fn lemma_create_then_read_exact(
    m: Map<u64, Seq<Seq<char>>>,
    registry: Seq<Seq<char>>,
    path: Seq<char>,
    n: nat,
    r: nat,
)
    requires
        forall|j: nat, k: nat|
            j < k < n ==> #[trigger] file_block_id(path, j) != #[trigger] file_block_id(path, k),
    ensures
        forall|i: nat|
            i < n ==> record_blocks(m, registry, path, n, r)[#[trigger] file_block_id(path, i)]
                == placement_spec(registry, block_name_spec(path, i), r),
{
    assert forall|i: nat| i < n implies record_blocks(m, registry, path, n, r)[#[trigger] file_block_id(
        path,
        i,
    )] == placement_spec(registry, block_name_spec(path, i), r) by {
        lemma_record_blocks_values(m, registry, path, n, r, i);
    }
}

/// Law: after a file is deleted its path is out of the file index, so by the
/// contracts of `NameNodeRecords::remove_file` and
/// `NameNodeRecords::get_file_addresses` a read of it yields the empty
/// routing map, and a second delete succeeds and yields an empty list:
/// deletion is idempotent.
pub proof fn lemma_delete_then_read(files: Map<Seq<char>, usize>, path: Seq<char>)
    ensures
        !files.remove(path).contains_key(path),
        files.remove(path).remove(path) == files.remove(path),
{
    assert(files.remove(path).remove(path) =~= files.remove(path));
}

/// Draining removes keys only: a key of the drained map was in the map.
proof fn lemma_drain_map_shrinks(
    m: Map<u64, Seq<Seq<char>>>,
    path: Seq<char>,
    lo: nat,
    hi: nat,
    k: u64,
)
    requires
        drain_map(m, path, lo, hi).contains_key(k),
    ensures
        m.contains_key(k),
    decreases hi - lo,
{
    if lo < hi {
        lemma_drain_map_shrinks(m.remove(file_block_id(path, lo)), path, (lo + 1) as nat, hi, k);
    }
}

/// Draining `[lo, hi)` removes every one of those block ids.
proof fn lemma_drain_map_removed(
    m: Map<u64, Seq<Seq<char>>>,
    path: Seq<char>,
    lo: nat,
    hi: nat,
    i: nat,
)
    requires
        lo <= i < hi,
    ensures
        !drain_map(m, path, lo, hi).contains_key(file_block_id(path, i)),
    decreases hi - lo,
{
    let id_lo = file_block_id(path, lo);
    if i == lo {
        if drain_map(m.remove(id_lo), path, (lo + 1) as nat, hi).contains_key(id_lo) {
            lemma_drain_map_shrinks(m.remove(id_lo), path, (lo + 1) as nat, hi, id_lo);
        }
    } else {
        lemma_drain_map_removed(m.remove(id_lo), path, (lo + 1) as nat, hi, i);
    }
}

/// Draining `[lo, hi)` leaves every other key as it was.
proof fn lemma_drain_map_preserves(
    m: Map<u64, Seq<Seq<char>>>,
    path: Seq<char>,
    lo: nat,
    hi: nat,
    k: u64,
)
    requires
        forall|i: nat| lo <= i < hi ==> #[trigger] file_block_id(path, i) != k,
    ensures
        drain_map(m, path, lo, hi).contains_key(k) == m.contains_key(k),
    decreases hi - lo,
{
    if lo < hi {
        assert(file_block_id(path, lo) != k);
        lemma_drain_map_preserves(m.remove(file_block_id(path, lo)), path, (lo + 1) as nat, hi, k);
    }
}

/// Law (update that shrinks a file): when an update rewrites a file from
/// `n_old` down to `n_new < n_old` blocks, the placements of blocks
/// `[n_new, n_old)` are removed from the placement map while those of blocks
/// `[0, n_new)` stay present, so by the contracts of
/// `NameNodeRecords::update_file` and `NameNodeRecords::get_file_addresses` a
/// subsequent read of the file yields exactly `n_new` replica sets.
///
/// The block ids of the file's first `n_old` blocks must be pairwise
/// distinct: a file whose two block names collide under the 64-bit hash can
/// lose a kept block's placement to the removal of a trailing one.
pub proof fn lemma_update_shrink(
    m: Map<u64, Seq<Seq<char>>>,
    registry: Seq<Seq<char>>,
    path: Seq<char>,
    n_new: nat,
    n_old: nat,
    r: nat,
)
    requires
        n_new <= n_old,
        forall|i: nat, j: nat|
            i < j < n_old ==> #[trigger] file_block_id(path, i) != #[trigger] file_block_id(
                path,
                j,
            ),
    ensures
        all_ids_present(drain_map(ensure_blocks(m, registry, path, n_new, r), path, n_new, n_old), path, n_new),
        forall|i: nat|
            n_new <= i < n_old ==> !drain_map(
                ensure_blocks(m, registry, path, n_new, r),
                path,
                n_new,
                n_old,
            ).contains_key(#[trigger] file_block_id(path, i)),
{
    let m1 = ensure_blocks(m, registry, path, n_new, r);
    let m2 = drain_map(m1, path, n_new, n_old);
    assert forall|i: nat| i < n_new implies m2.contains_key(
        #[trigger] file_block_id(path, i),
    ) by {
        lemma_ensure_blocks_present(m, registry, path, n_new, r, i);
        lemma_drain_map_preserves(m1, path, n_new, n_old, file_block_id(path, i));
    }
    assert forall|i: nat| n_new <= i < n_old implies !m2.contains_key(
        #[trigger] file_block_id(path, i),
    ) by {
        lemma_drain_map_removed(m1, path, n_new, n_old, i);
    }
}

/// Law (empty file): a file of size zero occupies no blocks, so by the
/// contracts of `NameNodeRecords::add_file`, `get_file_addresses`, and
/// `remove_file`, a create records zero blocks (and needs no capacity), a
/// read returns an empty routing map, and a delete returns an empty list.
pub proof fn lemma_zero_size_no_blocks(block: nat)
    requires
        block >= 1,
    ensures
        num_blocks_of(0, block) == 0,
{
}

/// Law (file of exactly one block): a file of exactly the block size occupies
/// one block.
pub proof fn lemma_exact_block_size(block: nat)
    requires
        block >= 1,
    ensures
        num_blocks_of(block, block) == 1,
{
    vstd::arithmetic::div_mod::lemma_fundamental_div_mod_converse(
        block as int,
        block as int,
        1,
        0,
    );
}

/// Law (one byte over): a file one byte longer than the block size occupies
/// two blocks, the second carrying one byte.
pub proof fn lemma_one_byte_over(block: nat)
    requires
        block >= 1,
    ensures
        num_blocks_of((block + 1) as nat, block) == 2,
{
    if block == 1 {
        vstd::arithmetic::div_mod::lemma_fundamental_div_mod_converse(2, 1, 2, 0);
    } else {
        vstd::arithmetic::div_mod::lemma_fundamental_div_mod_converse(
            block as int + 1,
            block as int,
            1,
            1,
        );
    }
}

/// Law (heartbeat monotonicity): within one DataNode's lifetime heartbeats
/// arrive with non-decreasing clock readings, and each heartbeat overwrites
/// the address's table entry with its reading, so the entry never decreases.
pub proof fn lemma_heartbeat_monotonic(
    hb: Map<Seq<char>, i64>,
    addr: Seq<char>,
    t1: i64,
    t2: i64,
)
    requires
        t1 <= t2,
    ensures
        hb.insert(addr, t1).insert(addr, t2)[addr] >= hb.insert(addr, t1)[addr],
{
}

} // verus!
