//! What a mesh needs before it is built: corners that name vertices which
//! exist, and vertices that are listed once.

use std::collections::HashMap;
use vstd::prelude::*;

verus! {

/// Every corner of every face names one of `n` vertices.
pub open spec fn corners_in_range(faces: Seq<[u32; 3]>, n: int) -> bool {
    forall|f: int, c: int| 0 <= f < faces.len() && 0 <= c < 3 ==> (#[trigger] faces[f]@[c]) < n
}

/// Whether every corner of every face names one of `n` vertices.
pub fn faces_in_range(faces: &Vec<[u32; 3]>, n: usize) -> (r: bool)
    ensures
        r == corners_in_range(faces@, n as int),
{
    let mut f: usize = 0;
    while f < faces.len()
        invariant
            f <= faces@.len(),
            forall|g: int, c: int| 0 <= g < f && 0 <= c < 3 ==> (#[trigger] faces@[g]@[c]) < n,
        decreases faces.len() - f,
    {
        let face = &faces[f];
        if face[0] as usize >= n || face[1] as usize >= n || face[2] as usize >= n {
            proof {
                assert(faces@[f as int]@[0] >= n || faces@[f as int]@[1] >= n
                    || faces@[f as int]@[2] >= n);
            }
            return false;
        }
        f = f + 1;
    }
    true
}

/// The keys `keys`, one for each corner of a mesh, merged into vertices:
/// `first` lists, in the order of `keys`, where each key stands first, and
/// `index` gives for each corner the place of its key in `first`.
pub open spec fn merged(keys: Seq<u128>, first: Seq<usize>, index: Seq<u32>) -> bool {
    &&& index.len() == keys.len()
    &&& forall|i: int|
        0 <= i < keys.len() ==> {
            &&& (#[trigger] index[i]) < first.len()
            &&& first[index[i] as int] <= i
            &&& keys[first[index[i] as int] as int] == keys[i]
        }
    &&& forall|k: int|
        0 <= k < first.len() ==> (#[trigger] first[k]) < keys.len() && index[first[k] as int] == k
    &&& forall|a: int, b: int|
        0 <= a < b < first.len() ==> (#[trigger] first[a]) < (#[trigger] first[b]) && keys[first[a] as int]
            != keys[first[b] as int]
}

/// Merges corners that have the same key into one vertex. The vertices
/// come in the order in which their keys come first.
pub fn merge_vertices(keys: &Vec<u128>) -> (r: (Vec<usize>, Vec<u32>))
    requires
        keys@.len() <= u32::MAX,
    ensures
        merged(keys@, r.0@, r.1@),
{
    broadcast use vstd::std_specs::hash::group_hash_axioms;

    let mut seen: HashMap<u128, u32> = HashMap::new();
    let mut first: Vec<usize> = Vec::new();
    let mut index: Vec<u32> = Vec::new();
    let mut i: usize = 0;
    while i < keys.len()
        invariant
            i <= keys@.len() <= u32::MAX,
            first@.len() <= i,
            merged(keys@.take(i as int), first@, index@),
            forall|key: u128| #[trigger]
                seen@.contains_key(key) ==> seen@[key] < first@.len() && keys@[first@[seen@[key] as int] as int]
                    == key,
            forall|k: int|
                0 <= k < first@.len() ==> seen@.contains_key(keys@[(#[trigger] first@[k]) as int])
                    && seen@[keys@[first@[k] as int]] == k,
        decreases keys.len() - i,
    {
        let key = keys[i];
        let ghost before = keys@.take(i as int);
        let ghost now = keys@.take(i + 1);
        let ghost old_first = first@;
        let ghost old_index = index@;
        proof {
            assert forall|j: int| 0 <= j < i implies now[j] == before[j] by {}
        }
        match seen.get(&key) {
            Some(k) => {
                let k = *k;
                index.push(k);
            },
            None => {
                let k = first.len() as u32;
                seen.insert(key, k);
                first.push(i);
                index.push(k);
                proof {
                    assert forall|a: int, b: int| 0 <= a < b < first@.len() implies (
                    #[trigger] first@[a]) < (#[trigger] first@[b]) && now[first@[a] as int]
                        != now[first@[b] as int] by {
                        if b == first@.len() - 1 {
                            assert(old_first[a] < before.len());
                            assert(seen@.remove(key).contains_key(keys@[old_first[a] as int]));
                        } else {
                            assert(old_first[a] < old_first[b]);
                        }
                    }
                }
            },
        }
        proof {
            assert forall|j: int| 0 <= j < now.len() implies {
                &&& (#[trigger] index@[j]) < first@.len()
                &&& first@[index@[j] as int] <= j
                &&& now[first@[index@[j] as int] as int] == now[j]
            } by {
                if j < i {
                    assert(old_index[j] < old_first.len());
                }
            }
            assert forall|k: int| 0 <= k < first@.len() implies (#[trigger] first@[k]) < now.len()
                && index@[first@[k] as int] == k by {
                if k < old_first.len() {
                    assert(old_first[k] < before.len());
                }
            }
        }
        i = i + 1;
    }
    proof {
        assert(keys@.take(keys@.len() as int) =~= keys@);
    }
    (first, index)
}

} // verus!
