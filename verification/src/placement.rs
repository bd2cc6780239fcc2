use vstd::prelude::*;

use vstd::string::StringSliceAdditionalSpecFns;

verus! {

/// FNV-1a 64-bit offset basis.
pub const FNV_OFFSET_BASIS: u64 = 0xcbf29ce484222325;

/// FNV-1a 64-bit prime.
pub const FNV_PRIME: u64 = 0x100000001b3;

/// One FNV-1a step: fold one byte into the running hash.
pub open spec fn fnv1a_step(h: u64, b: u8) -> u64 {
    vstd::wrapping::u64_specs::wrapping_mul(h ^ (b as u64), FNV_PRIME)
}

/// The FNV-1a hash of the first `i` bytes.
pub open spec fn fnv1a_at(bytes: Seq<u8>, i: int) -> u64
    decreases i,
{
    if i <= 0 {
        FNV_OFFSET_BASIS
    } else {
        fnv1a_step(fnv1a_at(bytes, i - 1), bytes[i - 1])
    }
}

/// The FNV-1a 64-bit hash of a byte sequence.
pub open spec fn fnv1a(bytes: Seq<u8>) -> u64 {
    fnv1a_at(bytes, bytes.len() as int)
}

/// The 64-bit block id of a block name: the FNV-1a hash of its UTF-8 bytes.
/// It seeds the placement shuffle and keys the placement map; it never
/// addresses stored blocks.
pub open spec fn block_id_spec(name: Seq<char>) -> u64 {
    fnv1a(vstd::utf8::encode_utf8(name))
}

/// Computes the 64-bit block id of a block name.
pub fn block_id(name: &str) -> (r: u64)
    ensures
        r == block_id_spec(name@),
{
    let bytes = name.as_bytes_vec();
    let mut h: u64 = FNV_OFFSET_BASIS;
    let mut i: usize = 0;
    while i < bytes.len()
        invariant
            i <= bytes@.len(),
            bytes@ == name.spec_bytes(),
            h == fnv1a_at(bytes@, i as int),
        decreases bytes@.len() - i,
    {
        h = (h ^ (bytes[i] as u64)).wrapping_mul(FNV_PRIME);
        i = i + 1;
    }
    h
}

/// The permutation that a shuffle seeded with `seed` applies to `items`.
/// Named only: the outcome is a function of the items and the seed alone.
pub uninterp spec fn shuffled_of(items: Seq<Seq<char>>, seed: u64) -> Seq<Seq<char>>;

/// Relies on `rand::rngs::StdRng::seed_from_u64` and
/// `rand::seq::SliceRandom::shuffle`: `StdRng` is a deterministic generator
/// for a given seed, and `shuffle` permutes the slice in place using draws
/// from that generator alone, so the outcome is a permutation of the input
/// determined by the input and the seed.
#[verifier::external_body]
fn shuffle_seeded(items: &mut Vec<String>, seed: u64)
    ensures
        final(items).deep_view() == shuffled_of(old(items).deep_view(), seed),
        final(items).deep_view().to_multiset() == old(items).deep_view().to_multiset(),
{
    let mut rng = <rand::rngs::StdRng as rand::SeedableRng>::seed_from_u64(seed);
    rand::seq::SliceRandom::shuffle(items.as_mut_slice(), &mut rng);
}

/// The replica set assigned to a block: shuffle the registry with the block
/// id as seed and keep the first `min(r, |registry|)` addresses.
pub open spec fn placement_spec(registry: Seq<Seq<char>>, name: Seq<char>, r: nat) -> Seq<
    Seq<char>,
> {
    let shuffled = shuffled_of(registry, block_id_spec(name));
    shuffled.take(vstd::math::min(r as int, shuffled.len() as int))
}

/// Law (placement determinism): the replica set chosen for a block depends
/// only on the registry contents, the block name, and the replication factor;
/// repeated placements against an unchanging registry agree.
pub proof fn lemma_placement_deterministic(
    registry1: Seq<Seq<char>>,
    name1: Seq<char>,
    registry2: Seq<Seq<char>>,
    name2: Seq<char>,
    r: nat,
)
    requires
        registry1 == registry2,
        name1 == name2,
    ensures
        placement_spec(registry1, name1, r) == placement_spec(registry2, name2, r),
{
}

/// Two sequences with equal multisets are permutations: if one has no
/// duplicates, neither has the other.
pub proof fn lemma_permutation_no_duplicates<A>(s1: Seq<A>, s2: Seq<A>)
    requires
        s1.to_multiset() == s2.to_multiset(),
        s1.no_duplicates(),
    ensures
        s2.no_duplicates(),
{
    broadcast use vstd::seq_lib::group_to_multiset_ensures;

    s1.lemma_multiset_has_no_duplicates();
    assert forall|x: A| s2.to_multiset().contains(x) implies s2.to_multiset().count(x) == 1 by {
        assert(s1.to_multiset().count(x) > 0);
        assert(s1.contains(x));
    }
    s2.lemma_multiset_has_no_duplicates_conv();
}

/// A prefix of a sequence without duplicates has none either.
pub proof fn lemma_take_no_duplicates<A>(s: Seq<A>, n: int)
    requires
        s.no_duplicates(),
        0 <= n <= s.len(),
    ensures
        s.take(n).no_duplicates(),
{
}

/// Selects the replica set for a block: the registry addresses, shuffled
/// deterministically by the block id, cut to the replication factor. Returns
/// `min(replication, |registry|)` pairwise distinct addresses whenever the
/// registry addresses are pairwise distinct.
pub fn select_replicas(registry: &Vec<String>, name: &str, replication: usize) -> (r: Vec<String>)
    ensures
        r.deep_view() == placement_spec(registry.deep_view(), name@, replication as nat),
        r.deep_view().len() == vstd::math::min(
            replication as int,
            registry.deep_view().len() as int,
        ),
        registry.deep_view().no_duplicates() ==> r.deep_view().no_duplicates(),
        forall|j: int|
            0 <= j < r.deep_view().len() ==> registry.deep_view().contains(
                #[trigger] r.deep_view()[j],
            ),
{
    broadcast use vstd::seq_lib::group_to_multiset_ensures;

    let mut picked = registry.clone();
    proof {
        assert forall|i: int| 0 <= i < registry@.len() implies picked@[i] == registry@[i] by {
            assert(vstd::pervasive::cloned::<String>(registry@[i], picked@[i]));
        }
        assert(picked@ =~= registry@);
        assert(picked.deep_view() =~= registry.deep_view());
    }
    let seed = block_id(name);
    shuffle_seeded(&mut picked, seed);
    proof {
        assert(picked.deep_view().to_multiset().len() == picked.deep_view().len());
        assert(registry.deep_view().to_multiset().len() == registry.deep_view().len());
        if registry.deep_view().no_duplicates() {
            lemma_permutation_no_duplicates(registry.deep_view(), picked.deep_view());
        }
    }
    let ghost shuffled = picked.deep_view();
    let count = if replication < picked.len() {
        replication
    } else {
        picked.len()
    };
    picked.truncate(count);
    proof {
        assert(picked.deep_view() =~= shuffled.take(
            vstd::math::min(replication as int, shuffled.len() as int),
        ));
        if registry.deep_view().no_duplicates() {
            lemma_take_no_duplicates(
                shuffled,
                vstd::math::min(replication as int, shuffled.len() as int),
            );
        }
        assert forall|j: int| 0 <= j < picked.deep_view().len() implies registry.deep_view()
            .contains(#[trigger] picked.deep_view()[j]) by {
            assert(shuffled[j] == picked.deep_view()[j]);
            assert(shuffled.contains(shuffled[j]));
            assert(shuffled.to_multiset().count(shuffled[j]) > 0);
            assert(registry.deep_view().to_multiset().count(shuffled[j]) > 0);
            assert(registry.deep_view().contains(shuffled[j]));
        }
    }
    picked
}

} // verus!
