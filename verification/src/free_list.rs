//! The free list: the empty entries of a storage, linked from one to the
//! next.

use vstd::prelude::*;
use crate::entry::EmptyEntry;
use crate::free_pointer::FreePointer;

verus! {

/// `pointer` leads to position `k` of the list `free`: it points to the slot
/// that stands there, or it is `None` and the list ends before `k`.
pub(crate) open spec fn leads_to(pointer: Option<FreePointer>, free: Seq<int>, k: int) -> bool {
    match pointer {
        Some(p) => k < free.len() && p@ == free[k],
        None => k == free.len(),
    }
}

/// `free` is the list that starts at `head` and goes on through the links.
pub(crate) open spec fn chain(
    links: Seq<Option<EmptyEntry>>,
    head: Option<FreePointer>,
    free: Seq<int>,
) -> bool {
    &&& leads_to(head, free, 0)
    &&& forall|k: int|
        0 <= k < free.len() ==> {
            &&& 0 <= #[trigger] free[k] < links.len()
            &&& links[free[k]] is Some
            &&& leads_to(links[free[k]].unwrap().next_free, free, k + 1)
        }
}

/// Two lists that follow the same links from the same head agree up to `k`.
proof fn lemma_chain_prefix(
    links: Seq<Option<EmptyEntry>>,
    head: Option<FreePointer>,
    a: Seq<int>,
    b: Seq<int>,
    k: int,
)
    requires
        chain(links, head, a),
        chain(links, head, b),
        0 <= k <= a.len(),
    ensures
        k <= b.len(),
        forall|j: int| 0 <= j < k ==> a[j] == b[j],
    decreases k,
{
    if k > 0 {
        lemma_chain_prefix(links, head, a, b, k - 1);
        if k > 1 {
            assert(a[k - 2] == b[k - 2]);
            assert(leads_to(links[a[k - 2]].unwrap().next_free, a, k - 1));
            assert(leads_to(links[b[k - 2]].unwrap().next_free, b, k - 1));
        }
    }
}

/// The links and the head determine the free list.
pub(crate) proof fn lemma_chain_unique(
    links: Seq<Option<EmptyEntry>>,
    head: Option<FreePointer>,
    a: Seq<int>,
    b: Seq<int>,
)
    requires
        chain(links, head, a),
        chain(links, head, b),
    ensures
        a == b,
{
    lemma_chain_prefix(links, head, a, b, a.len() as int);
    lemma_chain_prefix(links, head, b, a, b.len() as int);
    assert(a =~= b);
}

/// A slot that was not in the free list becomes its head: its entry points to
/// the old head, and the other links are as before.
pub(crate) proof fn lemma_chain_push_front(
    links: Seq<Option<EmptyEntry>>,
    head: Option<FreePointer>,
    free: Seq<int>,
    links_after: Seq<Option<EmptyEntry>>,
    head_after: Option<FreePointer>,
    slot: int,
)
    requires
        chain(links, head, free),
        !free.contains(slot),
        links.len() <= links_after.len(),
        0 <= slot < links_after.len(),
        forall|i: int| 0 <= i < links.len() && i != slot ==> links_after[i] == links[i],
        links_after[slot] is Some,
        links_after[slot].unwrap().next_free == head,
        head_after is Some,
        head_after.unwrap()@ == slot,
    ensures
        chain(links_after, head_after, seq![slot] + free),
{
    let longer = seq![slot] + free;
    assert forall|k: int| 0 <= k < longer.len() implies {
        &&& 0 <= #[trigger] longer[k] < links_after.len()
        &&& links_after[longer[k]] is Some
        &&& leads_to(links_after[longer[k]].unwrap().next_free, longer, k + 1)
    } by {
        if k > 0 {
            assert(longer[k] == free[k - 1]);
            assert(free.contains(free[k - 1]));
            assert(links[free[k - 1]] is Some);
            assert(leads_to(links[free[k - 1]].unwrap().next_free, free, k));
        } else {
            assert(leads_to(head, free, 0));
        }
    }
}

/// The head leaves the free list: the list goes on from what the head's entry
/// pointed to, and the links of the other slots are as before.
pub(crate) proof fn lemma_chain_pop_front(
    links: Seq<Option<EmptyEntry>>,
    head: Option<FreePointer>,
    free: Seq<int>,
    links_after: Seq<Option<EmptyEntry>>,
)
    requires
        chain(links, head, free),
        free.len() > 0,
        free.no_duplicates(),
        links.len() <= links_after.len(),
        forall|i: int| 0 <= i < links.len() && i != free[0] ==> links_after[i] == links[i],
    ensures
        links[free[0]] is Some,
        chain(links_after, links[free[0]].unwrap().next_free, free.drop_first()),
{
    let shorter = free.drop_first();
    assert(leads_to(links[free[0]].unwrap().next_free, free, 1));
    assert forall|k: int| 0 <= k < shorter.len() implies {
        &&& 0 <= #[trigger] shorter[k] < links_after.len()
        &&& links_after[shorter[k]] is Some
        &&& leads_to(links_after[shorter[k]].unwrap().next_free, shorter, k + 1)
    } by {
        assert(shorter[k] == free[k + 1]);
        assert(links[free[k + 1]] is Some);
        assert(leads_to(links[free[k + 1]].unwrap().next_free, free, k + 2));
    }
}

/// The free list stays what it is while the links of its slots do.
pub(crate) proof fn lemma_chain_kept(
    links: Seq<Option<EmptyEntry>>,
    head: Option<FreePointer>,
    free: Seq<int>,
    links_after: Seq<Option<EmptyEntry>>,
)
    requires
        chain(links, head, free),
        links.len() <= links_after.len(),
        forall|i: int| 0 <= i < links.len() && links[i] is Some ==> links_after[i] == links[i],
    ensures
        chain(links_after, head, free),
{
    assert forall|k: int| 0 <= k < free.len() implies {
        &&& 0 <= #[trigger] free[k] < links_after.len()
        &&& links_after[free[k]] is Some
        &&& leads_to(links_after[free[k]].unwrap().next_free, free, k + 1)
    } by {
        assert(links[free[k]] is Some);
    }
}

/// The slot at position `k` leaves the free list: what pointed to it, the
/// head or the entry before it, points to what it pointed to, and the other
/// links are as before.
pub(crate) proof fn lemma_chain_unlink(
    links: Seq<Option<EmptyEntry>>,
    head: Option<FreePointer>,
    free: Seq<int>,
    k: int,
    links_after: Seq<Option<EmptyEntry>>,
    head_after: Option<FreePointer>,
)
    requires
        chain(links, head, free),
        free.no_duplicates(),
        0 <= k < free.len(),
        links_after.len() == links.len(),
        k == 0 ==> head_after == links[free[0]].unwrap().next_free && links_after == links,
        k > 0 ==> {
            &&& head_after == head
            &&& links_after[free[k - 1]] is Some
            &&& links_after[free[k - 1]].unwrap().next_free == links[free[k]].unwrap().next_free
            &&& forall|i: int|
                0 <= i < links.len() && i != free[k - 1] ==> links_after[i] == links[i]
        },
    ensures
        chain(links_after, head_after, free.remove(k)),
{
    let spliced = free.remove(k);
    free.remove_ensures(k);
    assert(links[free[k]] is Some);
    assert(leads_to(links[free[k]].unwrap().next_free, free, k + 1));
    assert(leads_to(head, free, 0));
    assert forall|j: int| 0 <= j < spliced.len() implies {
        &&& 0 <= #[trigger] spliced[j] < links_after.len()
        &&& links_after[spliced[j]] is Some
        &&& leads_to(links_after[spliced[j]].unwrap().next_free, spliced, j + 1)
    } by {
        let i = if j < k {
            j
        } else {
            j + 1
        };
        assert(spliced[j] == free[i]);
        assert(links[free[i]] is Some);
        assert(leads_to(links[free[i]].unwrap().next_free, free, i + 1));
        if k > 0 && j != k - 1 {
            assert(free[i] != free[k - 1]);
        }
    }
}

} // verus!
