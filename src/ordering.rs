//! Reordering by a caller-supplied list of ids: the ids listed come first, in
//! the order given, and the others follow in their former relative order.

use vstd::prelude::*;

verus! {

/// No value occurs twice in `s`.
pub open spec fn no_duplicates(s: Seq<u64>) -> bool {
    forall|i: int, j: int| 0 <= i < j < s.len() ==> s[i] != s[j]
}

/// A reorder request is accepted: its ids are distinct and all known.
pub open spec fn reorder_valid(current: Seq<u64>, requested: Seq<u64>) -> bool {
    &&& no_duplicates(requested)
    &&& forall|j: int| 0 <= j < requested.len() ==> current.contains(#[trigger] requested[j])
}

/// The ids of `current` that `requested` does not list, in their order.
pub open spec fn unlisted(current: Seq<u64>, requested: Seq<u64>) -> Seq<u64>
    decreases current.len(),
{
    if current.len() == 0 {
        Seq::empty()
    } else {
        let rest = unlisted(current.drop_last(), requested);
        if requested.contains(current.last()) {
            rest
        } else {
            rest.push(current.last())
        }
    }
}

/// The order of ids after a reorder by `requested`.
pub open spec fn reordered(current: Seq<u64>, requested: Seq<u64>) -> Seq<u64> {
    requested + unlisted(current, requested)
}

/// What `unlisted` keeps: exactly the ids of `current` that are not requested,
/// without repeating any when `current` repeats none.
pub proof fn lemma_unlisted(current: Seq<u64>, requested: Seq<u64>)
    ensures
        forall|x: u64| unlisted(current, requested).contains(x) <==> (current.contains(x)
            && !requested.contains(x)),
        no_duplicates(current) ==> no_duplicates(unlisted(current, requested)),
    decreases current.len(),
{
    if current.len() > 0 {
        let prefix = current.drop_last();
        lemma_unlisted(prefix, requested);
        let rest = unlisted(prefix, requested);
        assert forall|x: u64| current.contains(x) <==> (prefix.contains(x) || x == current.last()) by {
            if current.contains(x) {
                let i = choose|i: int| 0 <= i < current.len() && current[i] == x;
                if i < current.len() - 1 {
                    assert(prefix[i] == x);
                }
            }
            if prefix.contains(x) {
                let i = choose|i: int| 0 <= i < prefix.len() && prefix[i] == x;
                assert(current[i] == x);
            }
            if x == current.last() {
                assert(current[current.len() - 1] == x);
            }
        }
        if !requested.contains(current.last()) {
            let r = rest.push(current.last());
            assert forall|x: u64| r.contains(x) <==> (rest.contains(x) || x == current.last()) by {
                if r.contains(x) {
                    let i = choose|i: int| 0 <= i < r.len() && r[i] == x;
                    if i < rest.len() {
                        assert(rest[i] == x);
                    }
                }
                if rest.contains(x) {
                    let i = choose|i: int| 0 <= i < rest.len() && rest[i] == x;
                    assert(r[i] == x);
                }
                if x == current.last() {
                    assert(r[rest.len() as int] == x);
                }
            }
            if no_duplicates(current) {
                assert(!prefix.contains(current.last())) by {
                    if prefix.contains(current.last()) {
                        let i = choose|i: int| 0 <= i < prefix.len() && prefix[i] == current.last();
                        assert(current[i] == current[current.len() - 1]);
                    }
                }
                assert(no_duplicates(prefix)) by {
                    assert forall|i: int, j: int| 0 <= i < j < prefix.len() implies prefix[i]
                        != prefix[j] by {
                        assert(prefix[i] == current[i] && prefix[j] == current[j]);
                    }
                }
                assert forall|i: int, j: int| 0 <= i < j < r.len() implies r[i] != r[j] by {
                    if j == rest.len() {
                        assert(rest.contains(rest[i]));
                    }
                }
            }
        } else {
            if no_duplicates(current) {
                assert(no_duplicates(prefix)) by {
                    assert forall|i: int, j: int| 0 <= i < j < prefix.len() implies prefix[i]
                        != prefix[j] by {
                        assert(prefix[i] == current[i] && prefix[j] == current[j]);
                    }
                }
            }
        }
    }
}

/// An accepted reorder keeps the same ids, each once: it is a permutation.
pub proof fn lemma_reordered_permutes(current: Seq<u64>, requested: Seq<u64>)
    requires
        reorder_valid(current, requested),
        no_duplicates(current),
    ensures
        forall|x: u64| reordered(current, requested).contains(x) <==> current.contains(x),
        no_duplicates(reordered(current, requested)),
{
    lemma_unlisted(current, requested);
    let u = unlisted(current, requested);
    let r = reordered(current, requested);
    assert forall|x: u64| r.contains(x) <==> current.contains(x) by {
        if r.contains(x) {
            let i = choose|i: int| 0 <= i < r.len() && r[i] == x;
            if i >= requested.len() {
                assert(u[i - requested.len()] == x);
            } else {
                assert(requested[i] == x);
            }
        }
        if current.contains(x) {
            if requested.contains(x) {
                let i = choose|i: int| 0 <= i < requested.len() && requested[i] == x;
                assert(r[i] == x);
            } else {
                let i = choose|i: int| 0 <= i < u.len() && u[i] == x;
                assert(r[requested.len() + i] == x);
            }
        }
    }
    assert forall|i: int, j: int| 0 <= i < j < r.len() implies r[i] != r[j] by {
        if i < requested.len() && j >= requested.len() {
            assert(u.contains(r[j]));
            assert(requested.contains(r[i]));
        } else if i >= requested.len() {
            assert(r[i] == u[i - requested.len()] && r[j] == u[j - requested.len()]);
        }
    }
}

/// Where `x` stands in `v`, if it does.
pub fn index_of(v: &Vec<u64>, x: u64) -> (r: Option<usize>)
    ensures
        match r {
            Some(i) => i < v@.len() && v@[i as int] == x,
            None => !v@.contains(x),
        },
{
    let mut i: usize = 0;
    while i < v.len()
        invariant
            i <= v@.len(),
            forall|j: int| 0 <= j < i ==> v@[j] != x,
        decreases v@.len() - i,
    {
        if v[i] == x {
            return Some(i);
        }
        i = i + 1;
    }
    None
}

/// The positions in `current` of the ids in their new order, or
/// `Validation` when `requested` repeats an id or lists an unknown one.
pub fn plan_reorder(current: &Vec<u64>, requested: &Vec<u64>) -> (r: Result<
    Vec<usize>,
    crate::model::ServiceError,
>)
    ensures
        match r {
            Ok(p) => {
                &&& reorder_valid(current@, requested@)
                &&& p@.len() == reordered(current@, requested@).len()
                &&& forall|k: int|
                    0 <= k < p@.len() ==> #[trigger] p@[k] < current@.len() && current@[p@[k] as int]
                        == reordered(current@, requested@)[k]
            },
            Err(e) => !reorder_valid(current@, requested@) && e
                == crate::model::ServiceError::Validation,
        },
{
    let mut p: Vec<usize> = Vec::new();
    let mut k: usize = 0;
    while k < requested.len()
        invariant
            k <= requested@.len(),
            p@.len() == k,
            no_duplicates(requested@.take(k as int)),
            forall|j: int| 0 <= j < k ==> current@.contains(#[trigger] requested@[j]),
            forall|j: int|
                0 <= j < k ==> #[trigger] p@[j] < current@.len() && current@[p@[j] as int]
                    == requested@[j],
        decreases requested@.len() - k,
    {
        let id = requested[k];
        let mut j: usize = 0;
        while j < k
            invariant
                k < requested@.len(),
                j <= k,
                id == requested@[k as int],
                forall|m: int| 0 <= m < j ==> requested@[m] != id,
            decreases k - j,
        {
            if requested[j] == id {
                assert(!no_duplicates(requested@));
                return Err(crate::model::ServiceError::Validation);
            }
            j = j + 1;
        }
        match index_of(current, id) {
            Some(i) => {
                p.push(i);
            },
            None => {
                return Err(crate::model::ServiceError::Validation);
            },
        }
        assert(no_duplicates(requested@.take(k + 1))) by {
            let t = requested@.take(k + 1);
            assert forall|a: int, b: int| 0 <= a < b < t.len() implies t[a] != t[b] by {
                if b < k {
                    assert(requested@.take(k as int)[a] == t[a]);
                    assert(requested@.take(k as int)[b] == t[b]);
                }
            }
        }
        k = k + 1;
    }
    assert(requested@.take(k as int) =~= requested@);
    let ghost req = requested@;
    let mut i: usize = 0;
    while i < current.len()
        invariant
            i <= current@.len(),
            req == requested@,
            p@.len() == req.len() + unlisted(current@.take(i as int), req).len(),
            forall|j: int|
                0 <= j < p@.len() ==> #[trigger] p@[j] < current@.len() && current@[p@[j] as int]
                    == (req + unlisted(current@.take(i as int), req))[j],
        decreases current@.len() - i,
    {
        let id = current[i];
        let listed = index_of(requested, id);
        assert(current@.take(i + 1).drop_last() =~= current@.take(i as int));
        if listed.is_none() {
            p.push(i);
        } else {
            assert(requested@.contains(id));
        }
        i = i + 1;
    }
    assert(current@.take(i as int) =~= current@);
    Ok(p)
}

} // verus!
