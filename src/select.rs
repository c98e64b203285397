//! Choosing one entry out of a list of ordered keys, keeping the first of equals.
use vstd::prelude::*;

verus! {

/// `keys[i]` is a maximum of `keys`, and no earlier entry reaches it.
pub open spec fn is_first_max(keys: Seq<i64>, i: int) -> bool {
    &&& 0 <= i < keys.len()
    &&& forall|j: int| 0 <= j < keys.len() ==> #[trigger] keys[j] <= keys[i]
    &&& forall|j: int| 0 <= j < i ==> #[trigger] keys[j] < keys[i]
}

/// `cands[i]` holds a minimum of the entries that hold a value, and no earlier
/// such entry reaches it.
pub open spec fn is_first_min(cands: Seq<Option<i64>>, i: int) -> bool {
    &&& 0 <= i < cands.len()
    &&& cands[i] is Some
    &&& forall|j: int|
        0 <= j < cands.len() && #[trigger] cands[j] is Some ==> cands[i]->Some_0 <= cands[j]->Some_0
    &&& forall|j: int|
        0 <= j < i && #[trigger] cands[j] is Some ==> cands[j]->Some_0 > cands[i]->Some_0
}

/// Index of the greatest key, the first one where several are equal; `None` for
/// no keys. Scans in order and replaces the choice only on a strictly greater key.
pub fn select_seed(keys: &Vec<i64>) -> (r: Option<usize>)
    ensures
        r is None <==> keys@.len() == 0,
        r matches Some(i) ==> is_first_max(keys@, i as int),
{
    if keys.len() == 0 {
        return None;
    }
    let mut best: usize = 0;
    let mut i: usize = 1;
    while i < keys.len()
        invariant
            1 <= i <= keys@.len(),
            best < i,
            forall|j: int| 0 <= j < i ==> #[trigger] keys@[j] <= keys@[best as int],
            forall|j: int| 0 <= j < best ==> #[trigger] keys@[j] < keys@[best as int],
        decreases keys@.len() - i,
    {
        if keys[i] > keys[best] {
            best = i;
        }
        i = i + 1;
    }
    Some(best)
}

/// Index of the smallest value among the entries that hold one, the first one
/// where several are equal; `None` when no entry holds a value.
pub fn nearest_candidate(cands: &Vec<Option<i64>>) -> (r: Option<usize>)
    ensures
        r is None <==> forall|j: int| 0 <= j < cands@.len() ==> #[trigger] cands@[j] is None,
        r matches Some(i) ==> is_first_min(cands@, i as int),
{
    let mut best: Option<usize> = None;
    let mut i: usize = 0;
    while i < cands.len()
        invariant
            i <= cands@.len(),
            best is None <==> forall|j: int| 0 <= j < i ==> #[trigger] cands@[j] is None,
            best matches Some(b) ==> {
                &&& b < i
                &&& cands@[b as int] is Some
                &&& forall|j: int|
                    0 <= j < i && #[trigger] cands@[j] is Some ==> cands@[b as int]->Some_0
                        <= cands@[j]->Some_0
                &&& forall|j: int|
                    0 <= j < b && #[trigger] cands@[j] is Some ==> cands@[j]->Some_0
                        > cands@[b as int]->Some_0
            },
        decreases cands@.len() - i,
    {
        if let Some(d) = cands[i] {
            match best {
                None => {
                    best = Some(i);
                },
                Some(b) => {
                    if let Some(e) = cands[b] {
                        if d < e {
                            best = Some(i);
                        }
                    }
                },
            }
        }
        i = i + 1;
    }
    best
}

} // verus!
