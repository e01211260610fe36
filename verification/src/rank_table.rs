//! The hash tables of the tokenizer. They are `rustc_hash` tables; what they
//! hold is named here, and each table operation that the tokenizer uses is
//! given a contract over those names.

use rustc_hash::FxHashMap;
use vstd::prelude::*;

verus! {

#[verifier::external_type_specification]
#[verifier::external_body]
pub struct ExFxBuildHasher(rustc_hash::FxBuildHasher);

/// What a rank table holds: byte strings, each with its rank.
pub uninterp spec fn rank_entries(table: FxHashMap<Vec<u8>, u32>) -> Map<Seq<u8>, u32>;

/// What a token table holds: ranks, each with its byte string.
pub uninterp spec fn token_entries(table: FxHashMap<u32, Vec<u8>>) -> Map<u32, Seq<u8>>;

/// The byte strings of a list of pairs, in the order of the list.
pub open spec fn pair_keys(pairs: Seq<(Vec<u8>, u32)>) -> Seq<Seq<u8>> {
    pairs.map_values(|p: (Vec<u8>, u32)| p.0@)
}

/// `FxHashMap::default`: a table that holds nothing.
#[verifier::external_body]
pub(crate) fn rank_table_new() -> (r: FxHashMap<Vec<u8>, u32>)
    ensures
        rank_entries(r).dom() == Set::<Seq<u8>>::empty(),
{
    FxHashMap::default()
}

/// `HashMap::insert`: afterwards the key is bound to the rank, whatever it
/// was bound to before, and every other key is as it was.
#[verifier::external_body]
pub(crate) fn rank_table_insert(table: &mut FxHashMap<Vec<u8>, u32>, key: Vec<u8>, rank: u32)
    ensures
        rank_entries(*final(table)) == rank_entries(*old(table)).insert(key@, rank),
{
    table.insert(key, rank);
}

/// `HashMap::get`: the rank bound to exactly these bytes, if there is one.
#[verifier::external_body]
pub(crate) fn rank_table_get(table: &FxHashMap<Vec<u8>, u32>, key: &[u8]) -> (rank: Option<u32>)
    ensures
        rank == (if rank_entries(*table).contains_key(key@) {
            Some(rank_entries(*table)[key@])
        } else {
            None
        }),
{
    table.get(key).copied()
}

/// `HashMap::len`: the number of keys.
#[verifier::external_body]
pub(crate) fn rank_table_len(table: &FxHashMap<Vec<u8>, u32>) -> (n: usize)
    ensures
        n == rank_entries(*table).dom().len(),
{
    table.len()
}

/// `HashMap::iter`: every binding of the table once, in an order that is
/// not fixed.
#[verifier::external_body]
pub(crate) fn rank_table_pairs(table: &FxHashMap<Vec<u8>, u32>) -> (r: Vec<(Vec<u8>, u32)>)
    ensures
        pair_keys(r@).no_duplicates(),
        pair_keys(r@).to_set() == rank_entries(*table).dom(),
        forall|i: int| 0 <= i < r@.len() ==> rank_entries(*table)[(#[trigger] r@[i]).0@] == r@[i].1,
{
    table.iter().map(|(key, rank)| (key.clone(), *rank)).collect()
}

/// `FxHashMap::default`: a table that holds nothing.
#[verifier::external_body]
pub(crate) fn token_table_new() -> (r: FxHashMap<u32, Vec<u8>>)
    ensures
        token_entries(r).dom() == Set::<u32>::empty(),
{
    FxHashMap::default()
}

/// `HashMap::insert`: afterwards the rank is bound to the bytes, whatever it
/// was bound to before, and every other rank is as it was.
#[verifier::external_body]
pub(crate) fn token_table_insert(table: &mut FxHashMap<u32, Vec<u8>>, token: u32, bytes: Vec<u8>)
    ensures
        token_entries(*final(table)) == token_entries(*old(table)).insert(token, bytes@),
{
    table.insert(token, bytes);
}

/// `HashMap::get`: the bytes bound to the rank, if there are any.
#[verifier::external_body]
pub(crate) fn token_table_get(table: &FxHashMap<u32, Vec<u8>>, token: u32) -> (r: Option<&Vec<u8>>)
    ensures
        r is Some <==> token_entries(*table).contains_key(token),
        r is Some ==> r->Some_0@ == token_entries(*table)[token],
{
    table.get(&token)
}

} // verus!
