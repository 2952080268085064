//! Name lookup for the registries. Definitions arrive as ordered lists; an
//! ordered map from the `indexmap` crate resolves a resource or pool name
//! to its registry index once, at construction time.

use vstd::prelude::*;
use indexmap::IndexMap;

verus! {

#[verifier::external_type_specification]
#[verifier::external_body]
#[verifier::reject_recursive_types(K)]
#[verifier::reject_recursive_types(V)]
#[verifier::reject_recursive_types(S)]
pub struct ExIndexMap<K, V, S>(IndexMap<K, V, S>);

/// What a name-to-index map holds, as a mathematical map from byte strings
/// to indices.
pub uninterp spec fn index_map_view(m: IndexMap<Vec<u8>, usize>) -> Map<Seq<u8>, usize>;

/// Relies on indexmap::IndexMap::new: a freshly created map holds no
/// entries.
#[verifier::external_body]
pub fn name_map_new() -> (m: IndexMap<Vec<u8>, usize>)
    ensures
        forall|nm: Seq<u8>| !index_map_view(m).contains_key(nm),
{
    IndexMap::new()
}

/// Relies on indexmap::IndexMap::insert: afterwards the key maps to the
/// given value; every other key keeps its value.
#[verifier::external_body]
pub fn name_map_insert(m: &mut IndexMap<Vec<u8>, usize>, k: Vec<u8>, v: usize)
    ensures
        index_map_view(*final(m)) == index_map_view(*old(m)).insert(k@, v),
{
    m.insert(k, v);
}

/// Relies on indexmap::IndexMap::get: returns the value stored under the
/// key, or nothing when the key is absent.
#[verifier::external_body]
pub fn name_map_get(m: &IndexMap<Vec<u8>, usize>, k: &Vec<u8>) -> (r: Option<usize>)
    ensures
        match r {
            Some(v) => index_map_view(*m).contains_key(k@) && index_map_view(*m)[k@] == v,
            None => !index_map_view(*m).contains_key(k@),
        },
{
    match m.get(k) {
        Some(v) => Some(*v),
        None => None,
    }
}

/// Pairwise distinctness of a list of names.
pub open spec fn names_distinct(names: Seq<Seq<u8>>) -> bool {
    forall|i: int, j: int| 0 <= i < j < names.len() ==> names[i] != names[j]
}

/// The map built by inserting the first `k` names, each bound to its index.
pub open spec fn spec_names_map(names: Seq<Seq<u8>>, k: int) -> Map<Seq<u8>, usize>
    decreases k,
{
    if k <= 0 {
        Map::empty()
    } else {
        spec_names_map(names, k - 1).insert(names[k - 1], (k - 1) as usize)
    }
}

/// With distinct names, the built map holds exactly the listed names, each
/// bound to its own index.
pub proof fn lemma_names_map_full(names: Seq<Seq<u8>>, k: int)
    requires
        0 <= k <= names.len(),
        names.len() <= usize::MAX,
        names_distinct(names),
    ensures
        forall|nm: Seq<u8>|
            spec_names_map(names, k).contains_key(nm) <==> exists|i: int|
                0 <= i < k && names[i] == nm,
        forall|i: int|
            0 <= i < k ==> spec_names_map(names, k).contains_key(#[trigger] names[i])
                && spec_names_map(names, k)[names[i]] == i,
    decreases k,
{
    if k > 0 {
        lemma_names_map_full(names, k - 1);
        let prev = spec_names_map(names, k - 1);
        let cur = spec_names_map(names, k);
        assert(cur == prev.insert(names[k - 1], (k - 1) as usize));
        assert forall|nm: Seq<u8>|
            cur.contains_key(nm) <==> exists|i: int| 0 <= i < k && names[i] == nm by {
            if cur.contains_key(nm) {
                if nm == names[k - 1] {
                    assert(0 <= k - 1 < k && names[k - 1] == nm);
                } else {
                    assert(prev.contains_key(nm));
                }
            }
            if exists|i: int| 0 <= i < k && names[i] == nm {
                let i = choose|i: int| 0 <= i < k && names[i] == nm;
                if i == k - 1 {
                    assert(cur.contains_key(nm));
                } else {
                    assert(exists|i2: int| 0 <= i2 < k - 1 && names[i2] == nm);
                    assert(prev.contains_key(nm));
                    assert(cur.contains_key(nm));
                }
            }
        }
        assert forall|i: int|
            0 <= i < k implies cur.contains_key(#[trigger] names[i]) && cur[names[i]] == i by {
            if i == k - 1 {
                assert(cur[names[k - 1]] == (k - 1) as usize);
            } else {
                assert(prev.contains_key(names[i]) && prev[names[i]] == i);
                assert(names[i] != names[k - 1]);
                assert(cur[names[i]] == prev[names[i]]);
            }
        }
    }
}

/// Builds the name-to-index map for a list of names.
pub fn build_name_map(names: &Vec<Vec<u8>>) -> (m: IndexMap<Vec<u8>, usize>)
    ensures
        index_map_view(m) == spec_names_map(
            names@.map_values(|v: Vec<u8>| v@),
            names@.len() as int,
        ),
{
    let ghost nms = names@.map_values(|v: Vec<u8>| v@);
    let mut m = name_map_new();
    let mut i: usize = 0;
    while i < names.len()
        invariant
            0 <= i <= names@.len(),
            nms == names@.map_values(|v: Vec<u8>| v@),
            index_map_view(m) == spec_names_map(nms, i as int),
        decreases names@.len() - i,
    {
        let nm = crate::resource::copy_bytes(&names[i]);
        name_map_insert(&mut m, nm, i);
        proof {
            assert(nms[i as int] == names@[i as int]@);
        }
        i += 1;
    }
    m
}

} // verus!
