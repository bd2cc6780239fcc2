use vstd::prelude::*;

use vstd::arithmetic::div_mod::lemma_fundamental_div_mod;
use vstd::arithmetic::mul::lemma_mul_inequality;
use vstd::arithmetic::mul::lemma_mul_is_distributive_add;

use crate::block::BlockInfo;
use crate::names::block_name;
use crate::names::block_name_spec;
use crate::records::num_blocks_of;

verus! {

/// The bytes of block `index` of a payload cut into blocks of `block` bytes:
/// `data[index * block .. min(len, (index + 1) * block)]`, empty once the
/// payload is exhausted.
pub open spec fn chunk_of(data: Seq<u8>, index: nat, block: nat) -> Seq<u8>
    recommends
        block >= 1,
{
    data.subrange(
        vstd::math::min((index * block) as int, data.len() as int),
        vstd::math::min((index * block + block) as int, data.len() as int),
    )
}

/// The blocks of a payload, in file-offset order.
pub open spec fn chunks_of(data: Seq<u8>, n: nat, block: nat) -> Seq<Seq<u8>> {
    Seq::new(n, |i: int| chunk_of(data, i as nat, block))
}

/// The concatenation of a list of byte blocks, in index order.
pub open spec fn concat_lists(blocks: Seq<Seq<u8>>) -> Seq<u8>
    decreases blocks.len(),
{
    if blocks.len() == 0 {
        Seq::empty()
    } else {
        concat_lists(blocks.drop_last()) + blocks.last()
    }
}

/// Copies out block `index` of a payload cut into blocks of `block_size`
/// bytes.
pub fn slice_block(data: &Vec<u8>, index: usize, block_size: usize) -> (r: Vec<u8>)
    requires
        block_size >= 1,
    ensures
        r@ == chunk_of(data@, index as nat, block_size as nat),
{
    let len = data.len();
    let max_index = len / block_size;
    if index > max_index {
        proof {
            lemma_fundamental_div_mod(len as int, block_size as int);
            lemma_mul_inequality(
                max_index as int + 1,
                index as int,
                block_size as int,
            );
            lemma_mul_is_distributive_add(block_size as int, max_index as int, 1);
            assert(index * block_size >= len);
            assert(index * block_size + block_size >= len);
            assert(chunk_of(data@, index as nat, block_size as nat) =~= Seq::<u8>::empty());
        }
        return Vec::new();
    }
    proof {
        lemma_fundamental_div_mod(len as int, block_size as int);
        lemma_mul_inequality(index as int, max_index as int, block_size as int);
        assert(index * block_size <= len);
    }
    let start = index * block_size;
    let end = if len - start < block_size {
        len
    } else {
        start + block_size
    };
    let mut out: Vec<u8> = Vec::new();
    let mut j: usize = start;
    while j < end
        invariant
            start <= j <= end,
            end <= data@.len(),
            out@ == data@.subrange(start as int, j as int),
        decreases end - j,
    {
        out.push(data[j]);
        j = j + 1;
        proof {
            assert(out@ =~= data@.subrange(start as int, j as int));
        }
    }
    proof {
        assert(out@ =~= chunk_of(data@, index as nat, block_size as nat));
    }
    out
}

/// Builds the per-block write requests for a file operation: for each block
/// index in `[0, count)`, the block's name and a `BlockInfo` carrying the
/// block's position, its payload slice, and the slice's length as the
/// declared size. An index past the end of the payload gets an empty slice
/// and size zero — the delete sentinel an update sends for the blocks a
/// shrinking file no longer occupies.
pub fn build_block_requests(
    path: &str,
    data: &Vec<u8>,
    count: usize,
    block_size: usize,
) -> (r: Vec<(String, BlockInfo)>)
    requires
        block_size >= 1,
    ensures
        r@.len() == count,
        forall|i: int|
            0 <= i < count ==> (#[trigger] r@[i]).0@ == block_name_spec(path@, i as nat),
        forall|i: int|
            0 <= i < count ==> (#[trigger] r@[i]).1.block_id == i && r@[i].1.block_data@
                == chunk_of(data@, i as nat, block_size as nat) && r@[i].1.block_size == chunk_of(
                data@,
                i as nat,
                block_size as nat,
            ).len(),
{
    let mut out: Vec<(String, BlockInfo)> = Vec::new();
    let mut i: usize = 0;
    while i < count
        invariant
            i <= count,
            block_size >= 1,
            out@.len() == i,
            forall|j: int|
                0 <= j < i ==> (#[trigger] out@[j]).0@ == block_name_spec(path@, j as nat),
            forall|j: int|
                0 <= j < i ==> (#[trigger] out@[j]).1.block_id == j && out@[j].1.block_data@
                    == chunk_of(data@, j as nat, block_size as nat) && out@[j].1.block_size
                    == chunk_of(data@, j as nat, block_size as nat).len(),
        decreases count - i,
    {
        let name = block_name(path, i);
        let slice = slice_block(data, i, block_size);
        let info = BlockInfo {
            block_id: i as u64,
            block_size: slice.len() as u64,
            block_data: slice,
        };
        out.push((name, info));
        i = i + 1;
    }
    out
}

/// Concatenates block payloads in index order: the bytes a read hands back to
/// the user.
pub fn assemble_file(blocks: &Vec<Vec<u8>>) -> (r: Vec<u8>)
    ensures
        r@ == concat_lists(blocks.deep_view()),
{
    let mut out: Vec<u8> = Vec::new();
    let mut i: usize = 0;
    while i < blocks.len()
        invariant
            i <= blocks@.len(),
            out@ == concat_lists(blocks.deep_view().take(i as int)),
        decreases blocks@.len() - i,
    {
        let ghost before = out@;
        out.extend_from_slice(blocks[i].as_slice());
        i = i + 1;
        proof {
            assert(out@ =~= before + blocks.deep_view()[i - 1]);
            assert(blocks.deep_view().take(i as int).drop_last() =~= blocks.deep_view().take(
                i as int - 1,
            ));
            assert(blocks.deep_view().take(i as int).last() == blocks.deep_view()[i - 1]);
        }
    }
    proof {
        assert(blocks.deep_view().take(blocks@.len() as int) =~= blocks.deep_view());
    }
    out
}

/// The first `k` blocks of a payload concatenate to its first
/// `min(k * block, len)` bytes.
proof fn lemma_concat_chunks_prefix(data: Seq<u8>, k: nat, block: nat)
    requires
        block >= 1,
    ensures
        concat_lists(chunks_of(data, k, block)) == data.take(
            vstd::math::min((k * block) as int, data.len() as int),
        ),
    decreases k,
{
    if k == 0 {
        assert(concat_lists(chunks_of(data, 0, block)) =~= data.take(0));
    } else {
        lemma_concat_chunks_prefix(data, (k - 1) as nat, block);
        assert(chunks_of(data, k, block).drop_last() =~= chunks_of(data, (k - 1) as nat, block));
        assert(chunks_of(data, k, block).last() == chunk_of(data, (k - 1) as nat, block));
        assert((k - 1) as nat * block + block == k * block) by (nonlinear_arith)
            requires
                k >= 1,
        ;
        assert(concat_lists(chunks_of(data, k, block)) =~= data.take(
            vstd::math::min((k * block) as int, data.len() as int),
        ));
    }
}

/// A block written with its declared size equal to its payload length is
/// stored whole: the requests `build_block_requests` builds declare exactly
/// their slice's length, so `Storage::create` stores each slice untruncated.
pub proof fn lemma_exact_size_stores_whole(info: BlockInfo)
    requires
        info.block_size == info.block_data@.len(),
    ensures
        crate::block::stored_bytes(info) == info.block_data@,
{
}

/// Law (round trip): a payload cut into `⌈len / block⌉` blocks and
/// reassembled in index order is the payload itself. With the contracts of
/// `Storage::create` and `Storage::read`, a read after a create whose
/// per-block writes all succeeded yields the written bytes in file-offset
/// order.
pub proof fn lemma_chunks_roundtrip(data: Seq<u8>, block: nat)
    requires
        block >= 1,
    ensures
        concat_lists(chunks_of(data, num_blocks_of(data.len(), block), block)) == data,
{
    let n = num_blocks_of(data.len(), block);
    lemma_concat_chunks_prefix(data, n, block);
    lemma_fundamental_div_mod(data.len() as int, block as int);
    let q = data.len() as int / block as int;
    let rem = data.len() as int % block as int;
    if rem == 0 {
        assert(n * block == data.len()) by (nonlinear_arith)
            requires
                n == q,
                data.len() == block * q + rem,
                rem == 0,
        ;
    } else {
        assert(n * block >= data.len()) by (nonlinear_arith)
            requires
                n == q + 1,
                data.len() == block * q + rem,
                rem < block,
        ;
    }
    assert(data.take(data.len() as int) =~= data);
}

} // verus!
