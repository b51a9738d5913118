//! Lists of shard numbers.

use vstd::prelude::*;

verus! {

/// Number of a shard: its position in the cluster.
pub type ShardId = usize;

/// A list without one number.
pub open spec fn without(ids: Seq<usize>, id: usize) -> Seq<usize> {
    ids.filter(|x: usize| x != id)
}

/// A list with a number at the end, unless it holds it already.
pub open spec fn with(ids: Seq<usize>, id: usize) -> Seq<usize> {
    if ids.contains(id) {
        ids
    } else {
        ids.push(id)
    }
}

/// A list without the numbers of another.
pub open spec fn minus(ids: Seq<usize>, others: Seq<usize>) -> Seq<usize> {
    ids.filter(|x: usize| !others.contains(x))
}

/// A copy of a list.
pub fn copy_ids(ids: &[ShardId]) -> (r: Vec<ShardId>)
    ensures
        r@ == ids@,
{
    let mut r: Vec<ShardId> = Vec::new();
    let mut i: usize = 0;
    while i < ids.len()
        invariant
            i <= ids.len(),
            r@ == ids@.take(i as int),
        decreases ids.len() - i,
    {
        r.push(ids[i]);
        assert(r@ =~= ids@.take(i + 1));
        i = i + 1;
    }
    assert(ids@.take(i as int) =~= ids@);
    r
}

/// Whether a list holds a number.
pub fn has_id(ids: &[ShardId], id: ShardId) -> (r: bool)
    ensures
        r == ids@.contains(id),
{
    let mut i: usize = 0;
    while i < ids.len()
        invariant
            i <= ids.len(),
            forall|k: int| 0 <= k < i ==> ids@[k] != id,
        decreases ids.len() - i,
    {
        if ids[i] == id {
            assert(ids@[i as int] == id);
            return true;
        }
        i = i + 1;
    }
    false
}

/// A list without one number.
pub fn drop_id(ids: &[ShardId], id: ShardId) -> (r: Vec<ShardId>)
    ensures
        r@ == without(ids@, id),
{
    let mut r: Vec<ShardId> = Vec::new();
    let mut i: usize = 0;
    while i < ids.len()
        invariant
            i <= ids.len(),
            r@ == without(ids@.take(i as int), id),
        decreases ids.len() - i,
    {
        assert(ids@.take(i + 1).drop_last() =~= ids@.take(i as int));
        assert(ids@.take(i + 1).last() == ids@[i as int]);
        reveal(Seq::filter);
        if ids[i] != id {
            r.push(ids[i]);
        }
        i = i + 1;
    }
    assert(ids@.take(i as int) =~= ids@);
    r
}

/// A list without the numbers of another.
pub fn drop_ids(ids: &[ShardId], others: &[ShardId]) -> (r: Vec<ShardId>)
    ensures
        r@ == minus(ids@, others@),
{
    let mut r: Vec<ShardId> = Vec::new();
    let mut i: usize = 0;
    while i < ids.len()
        invariant
            i <= ids.len(),
            r@ == minus(ids@.take(i as int), others@),
        decreases ids.len() - i,
    {
        assert(ids@.take(i + 1).drop_last() =~= ids@.take(i as int));
        assert(ids@.take(i + 1).last() == ids@[i as int]);
        reveal(Seq::filter);
        if !has_id(others, ids[i]) {
            r.push(ids[i]);
        }
        i = i + 1;
    }
    assert(ids@.take(i as int) =~= ids@);
    r
}

/// Whether two lists are equal.
pub fn ids_eq(a: &[ShardId], b: &[ShardId]) -> (r: bool)
    ensures
        r == (a@ == b@),
{
    if a.len() != b.len() {
        return false;
    }
    let mut i: usize = 0;
    while i < a.len()
        invariant
            i <= a.len(),
            a.len() == b.len(),
            forall|k: int| 0 <= k < i ==> a@[k] == b@[k],
        decreases a.len() - i,
    {
        if a[i] != b[i] {
            assert(a@[i as int] != b@[i as int]);
            return false;
        }
        i = i + 1;
    }
    assert(a@ =~= b@);
    true
}

/// Removing a number removes it and nothing else.
pub proof fn lemma_without(ids: Seq<usize>, id: usize)
    ensures
        !without(ids, id).contains(id),
        forall|x: usize| x != id ==> #[trigger] without(ids, id).contains(x) == ids.contains(x),
        without(ids, id).len() <= ids.len(),
        !ids.contains(id) ==> without(ids, id) == ids,
    decreases ids.len(),
{
    reveal(Seq::filter);
    if ids.len() > 0 {
        let head = ids.drop_last();
        lemma_without(head, id);
        let r = without(ids, id);
        let h = without(head, id);
        assert(ids =~= head.push(ids.last()));
        assert forall|x: usize| ids.contains(x) == (head.contains(x) || x == ids.last()) by {
            if head.contains(x) {
                let i = choose|i: int| 0 <= i < head.len() && head[i] == x;
                assert(ids[i] == x);
            }
            if ids.contains(x) && x != ids.last() {
                let i = choose|i: int| 0 <= i < ids.len() && ids[i] == x;
                assert(head[i] == x);
            }
            assert(ids[ids.len() - 1] == ids.last());
        }
        if ids.last() != id {
            assert(r == h.push(ids.last()));
            assert forall|x: usize| r.contains(x) == (h.contains(x) || x == ids.last()) by {
                if h.contains(x) {
                    let i = choose|i: int| 0 <= i < h.len() && h[i] == x;
                    assert(r[i] == x);
                }
                assert(r[r.len() - 1] == ids.last());
                if r.contains(x) && x != ids.last() {
                    let i = choose|i: int| 0 <= i < r.len() && r[i] == x;
                    assert(h[i] == x);
                }
            }
        } else {
            assert(r == h);
        }
    }
}

// -- Laws -------------------------------------------------------------------

/// A list without a number holds every other number that it held, one with a number holds
/// that too, once if none was there twice, and one without those of another holds what is
/// only in the first.
pub proof fn lists_hold_what_they_should(
    list: Seq<usize>,
    others: Seq<usize>,
    id: usize,
    k: usize,
)
    ensures
        without(list, id).contains(k) <==> list.contains(k) && k != id,
        with(list, id).contains(k) <==> list.contains(k) || k == id,
        minus(list, others).contains(k) <==> list.contains(k) && !others.contains(k),
        list.no_duplicates() ==> with(list, id).no_duplicates(),
        list.is_prefix_of(with(list, id)),
{
    lemma_without(list, id);
    lemma_minus(list, others, k);
    let w = with(list, id);
    if list.contains(k) {
        let i = list.index_of(k);
        assert(w[i] == k);
    } else if k == id {
        assert(w[w.len() - 1] == k);
    }
}

proof fn lemma_minus(list: Seq<usize>, others: Seq<usize>, k: usize)
    ensures
        minus(list, others).contains(k) <==> list.contains(k) && !others.contains(k),
    decreases list.len(),
{
    reveal(Seq::filter);
    if list.len() > 0 {
        let head = list.drop_last();
        lemma_minus(head, others, k);
        let r = minus(list, others);
        let h = minus(head, others);
        if list.contains(k) && !others.contains(k) {
            let i = list.index_of(k);
            if i < head.len() {
                assert(head[i] == k);
                let j = h.index_of(k);
                assert(r[j] == k);
            } else {
                assert(r[r.len() - 1] == k);
            }
        }
        if r.contains(k) {
            let j = r.index_of(k);
            if j < h.len() {
                assert(h[j] == k);
                let i = head.index_of(k);
                assert(list[i] == k);
            } else {
                assert(list[list.len() - 1] == k);
            }
        }
    }
}

} // verus!
