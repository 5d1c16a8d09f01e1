//! Conjunctive (Boolean AND) query evaluation over ascending doc-id lists.
use vstd::prelude::*;

verus! {

/// Doc ids strictly increase along `s`.
pub open spec fn ascending(s: Seq<u32>) -> bool {
    forall|i: int, j: int| 0 <= i < j < s.len() ==> s[i] < s[j]
}

/// The doc ids on both ascending lists, ascending.
pub fn intersect_two(a: &Vec<u32>, b: &Vec<u32>) -> (r: Vec<u32>)
    requires
        ascending(a@),
        ascending(b@),
    ensures
        ascending(r@),
        forall|d: u32| r@.contains(d) <==> a@.contains(d) && b@.contains(d),
{
    let mut r: Vec<u32> = Vec::new();
    let mut i: usize = 0;
    let mut j: usize = 0;
    while i < a.len() && j < b.len()
        invariant
            i <= a@.len(),
            j <= b@.len(),
            ascending(a@),
            ascending(b@),
            ascending(r@),
            forall|x: u32| r@.contains(x) ==> a@.contains(x) && b@.contains(x),
            forall|k: int| 0 <= k < i && b@.contains(#[trigger] a@[k]) ==> r@.contains(a@[k]),
            forall|k: int| 0 <= k < j && a@.contains(#[trigger] b@[k]) ==> r@.contains(b@[k]),
            forall|k: int| 0 <= k < r@.len() && i < a@.len() ==> #[trigger] r@[k] < a@[i as int],
            forall|k: int| 0 <= k < r@.len() && j < b@.len() ==> #[trigger] r@[k] < b@[j as int],
        decreases a@.len() - i + b@.len() - j,
    {
        let x = a[i];
        let y = b[j];
        if x < y {
            proof {
                if b@.contains(x) {
                    let m = choose|m: int| 0 <= m < b@.len() && b@[m] == x;
                    if m < j {
                        assert(r@.contains(b@[m]));
                        let w = choose|w: int| 0 <= w < r@.len() && r@[w] == x;
                        assert(r@[w] < a@[i as int]);
                    } else {
                        assert(b@[m] >= b@[j as int]);
                    }
                }
            }
            i = i + 1;
        } else if y < x {
            proof {
                if a@.contains(y) {
                    let m = choose|m: int| 0 <= m < a@.len() && a@[m] == y;
                    if m < i {
                        assert(r@.contains(a@[m]));
                        let w = choose|w: int| 0 <= w < r@.len() && r@[w] == y;
                        assert(r@[w] < b@[j as int]);
                    } else {
                        assert(a@[m] >= a@[i as int]);
                    }
                }
            }
            j = j + 1;
        } else {
            let ghost old_r = r@;
            r.push(x);
            proof {
                assert(r@[old_r.len() as int] == x);
                assert forall|x2: u32| r@.contains(x2) implies a@.contains(x2) && b@.contains(x2) by {
                    if x2 != x {
                        let w = choose|w: int| 0 <= w < r@.len() && r@[w] == x2;
                        assert(old_r[w] == x2);
                    } else {
                        assert(a@[i as int] == x);
                        assert(b@[j as int] == x);
                    }
                }
                assert forall|k: int| 0 <= k < i + 1 && b@.contains(#[trigger] a@[k]) implies r@.contains(a@[k]) by {
                    if k < i {
                        let w = choose|w: int| 0 <= w < old_r.len() && old_r[w] == a@[k];
                        assert(r@[w] == a@[k]);
                    }
                }
                assert forall|k: int| 0 <= k < j + 1 && a@.contains(#[trigger] b@[k]) implies r@.contains(b@[k]) by {
                    if k < j {
                        let w = choose|w: int| 0 <= w < old_r.len() && old_r[w] == b@[k];
                        assert(r@[w] == b@[k]);
                    }
                }
            }
            i = i + 1;
            j = j + 1;
        }
    }
    proof {
        assert forall|d: u32| a@.contains(d) && b@.contains(d) implies r@.contains(d) by {
            let ka = choose|k: int| 0 <= k < a@.len() && a@[k] == d;
            let kb = choose|k: int| 0 <= k < b@.len() && b@[k] == d;
            if ka < i {
                assert(b@.contains(a@[ka]));
            } else {
                assert(kb < j);
                assert(a@.contains(b@[kb]));
            }
        }
    }
    r
}

/// Boolean AND: the doc ids on every one of the ascending lists, ascending.
/// With no list, no doc id.
pub fn binary_merge(lists: &Vec<Vec<u32>>) -> (r: Vec<u32>)
    requires
        forall|k: int| 0 <= k < lists@.len() ==> ascending(#[trigger] lists@[k]@),
    ensures
        ascending(r@),
        lists@.len() > 0 ==> forall|d: u32|
            r@.contains(d) <==> forall|k: int| 0 <= k < lists@.len() ==> (#[trigger] lists@[k]@).contains(d),
        lists@.len() == 0 ==> r@.len() == 0,
{
    if lists.len() == 0 {
        return Vec::new();
    }
    let mut acc = intersect_two(&lists[0], &lists[0]);
    let mut k: usize = 1;
    while k < lists.len()
        invariant
            1 <= k <= lists@.len(),
            forall|q: int| 0 <= q < lists@.len() ==> ascending(#[trigger] lists@[q]@),
            ascending(acc@),
            forall|d: u32| acc@.contains(d) <==> forall|q: int| 0 <= q < k ==> (#[trigger] lists@[q]@).contains(d),
        decreases lists@.len() - k,
    {
        let next = intersect_two(&acc, &lists[k]);
        assert forall|d: u32| next@.contains(d) <==> forall|q: int| 0 <= q < k + 1 ==> (#[trigger] lists@[q]@).contains(d) by {
            if next@.contains(d) {
                assert forall|q: int| 0 <= q < k + 1 implies (#[trigger] lists@[q]@).contains(d) by {
                    if q < k {
                        assert(acc@.contains(d));
                    }
                }
            }
            if forall|q: int| 0 <= q < k + 1 ==> (#[trigger] lists@[q]@).contains(d) {
                assert(lists@[k as int]@.contains(d));
                assert(acc@.contains(d));
            }
        }
        acc = next;
        k = k + 1;
    }
    acc
}

} // verus!
