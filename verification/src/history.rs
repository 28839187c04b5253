//! Most-recently-used history of task descriptions.
//!
//! `HistoryList` keeps distinct strings ordered from the most recently added
//! to the oldest.  Nodes live in a flat arena (`Vec<Option<Node>>`) and are
//! linked by slot indices; freed slots are recycled.  A hash index from the
//! string to its slot gives constant-time lookup, removal and move-to-front.
//!
//! The abstract view of a list is the sequence of its strings, front first.
use vstd::hash_map::StringHashMap;
use vstd::prelude::*;

verus! {

/// The list with the most recently pushed value removed from where it was
/// and nothing else changed.
pub open spec fn without(l: Seq<Seq<char>>, v: Seq<char>) -> Seq<Seq<char>> {
    l.filter(differs_from(v))
}

/// The test "is not `v`".
pub open spec fn differs_from(v: Seq<char>) -> spec_fn(Seq<char>) -> bool {
    |x: Seq<char>| x != v
}

/// What a push of `v` makes of the list `l`: `v` at the front, and the old
/// list without `v` behind it.
pub open spec fn pushed(l: Seq<Seq<char>>, v: Seq<char>) -> Seq<Seq<char>> {
    seq![v] + without(l, v)
}

/// The list that pushing `items` one after the other into an empty list gives.
pub open spec fn pushed_all(items: Seq<Seq<char>>) -> Seq<Seq<char>>
    decreases items.len(),
{
    if items.len() == 0 {
        Seq::empty()
    } else {
        pushed(pushed_all(items.drop_last()), items.last())
    }
}


/// Views of a sequence of string slices.
pub open spec fn strs_view(v: Seq<&str>) -> Seq<Seq<char>> {
    v.map_values(|x: &str| x@)
}

/// Views of a sequence of strings.
pub open spec fn strings_view(v: Seq<String>) -> Seq<Seq<char>> {
    v.map_values(|x: String| x@)
}

/// Larger of two naturals.
pub open spec fn max_nat(a: nat, b: nat) -> nat {
    if a >= b {
        a
    } else {
        b
    }
}


/// Dropping a value that does not occur leaves the list as it is.
pub proof fn lemma_without_absent(l: Seq<Seq<char>>, v: Seq<char>)
    requires
        !l.contains(v),
    ensures
        without(l, v) == l,
    decreases l.len(),
{
    reveal(Seq::filter);
    if l.len() > 0 {
        assert(!l.drop_last().contains(v)) by {
            if l.drop_last().contains(v) {
                let i = choose|i: int| 0 <= i < l.drop_last().len() && l.drop_last()[i] == v;
                assert(l[i] == v);
            }
        }
        lemma_without_absent(l.drop_last(), v);
        assert(l.last() != v) by {
            assert(l[l.len() - 1] == l.last());
        }
        assert(l.drop_last().push(l.last()) =~= l);
    }
}

/// In a list without repeats, dropping the value at `p` is removing position `p`.
pub proof fn lemma_without_at(l: Seq<Seq<char>>, v: Seq<char>, p: int)
    requires
        l.no_duplicates(),
        0 <= p < l.len(),
        l[p] == v,
    ensures
        without(l, v) == l.remove(p),
{
    let pre = l.subrange(0, p);
    let post = l.subrange(p + 1, l.len() as int);
    assert(l =~= pre + seq![v] + post);
    assert(!pre.contains(v)) by {
        if pre.contains(v) {
            let i = choose|i: int| 0 <= i < pre.len() && pre[i] == v;
            assert(l[i] == l[p]);
        }
    }
    assert(!post.contains(v)) by {
        if post.contains(v) {
            let i = choose|i: int| 0 <= i < post.len() && post[i] == v;
            assert(l[p + 1 + i] == l[p]);
        }
    }
    lemma_without_absent(pre, v);
    lemma_without_absent(post, v);
    let pred = differs_from(v);
    Seq::filter_distributes_over_add(pre + seq![v], post, pred);
    Seq::filter_distributes_over_add(pre, seq![v], pred);
    assert(seq![v].filter(pred) =~= Seq::<Seq<char>>::empty()) by {
        reveal_with_fuel(Seq::filter, 2);
        assert(seq![v].drop_last() =~= Seq::<Seq<char>>::empty());
    }
    assert(l.remove(p) =~= pre + post);
}

/// A pushed value sits at the front and occurs nowhere else; the rest of the
/// list keeps its order and loses nothing but that value.
pub proof fn lemma_pushed_shape(l: Seq<Seq<char>>, v: Seq<char>)
    requires
        l.no_duplicates(),
    ensures
        pushed(l, v).no_duplicates(),
        pushed(l, v)[0] == v,
        pushed(l, v).len() == (if l.contains(v) {
            l.len()
        } else {
            l.len() + 1
        }),
        forall|x: Seq<char>| #[trigger] pushed(l, v).contains(x) <==> (x == v || l.contains(x)),
{
    if l.contains(v) {
        let p = choose|i: int| 0 <= i < l.len() && l[i] == v;
        lemma_without_at(l, v, p);
        let r = l.remove(p);
        assert forall|x: Seq<char>| #[trigger] pushed(l, v).contains(x) <==> (x == v || l.contains(
            x,
        )) by {
            if x == v {
                assert(pushed(l, v)[0] == v);
            }
            if l.contains(x) && x != v {
                let i = choose|i: int| 0 <= i < l.len() && l[i] == x;
                if i < p {
                    assert(pushed(l, v)[i + 1] == x);
                } else {
                    assert(i != p);
                    assert(pushed(l, v)[i] == x);
                }
            }
            if pushed(l, v).contains(x) && x != v {
                let i = choose|i: int| 0 <= i < pushed(l, v).len() && pushed(l, v)[i] == x;
                assert(i > 0);
                if i - 1 < p {
                    assert(l[i - 1] == x);
                } else {
                    assert(l[i] == x);
                }
            }
        }
        assert forall|i: int, j: int|
            0 <= i < pushed(l, v).len() && 0 <= j < pushed(l, v).len() && i != j implies pushed(
            l,
            v,
        )[i] != pushed(l, v)[j] by {
            let q = pushed(l, v);
            let oi = if i - 1 < p {
                i - 1
            } else {
                i
            };
            let oj = if j - 1 < p {
                j - 1
            } else {
                j
            };
            if i > 0 {
                assert(q[i] == l[oi]);
                assert(oi != p);
            }
            if j > 0 {
                assert(q[j] == l[oj]);
                assert(oj != p);
            }
        }
    } else {
        lemma_without_absent(l, v);
        assert forall|x: Seq<char>| #[trigger] pushed(l, v).contains(x) <==> (x == v || l.contains(
            x,
        )) by {
            if x == v {
                assert(pushed(l, v)[0] == v);
            }
            if l.contains(x) {
                let i = choose|i: int| 0 <= i < l.len() && l[i] == x;
                assert(pushed(l, v)[i + 1] == x);
            }
            if pushed(l, v).contains(x) && x != v {
                let i = choose|i: int| 0 <= i < pushed(l, v).len() && pushed(l, v)[i] == x;
                assert(l[i - 1] == x);
            }
        }
        assert forall|i: int, j: int|
            0 <= i < pushed(l, v).len() && 0 <= j < pushed(l, v).len() && i != j implies pushed(
            l,
            v,
        )[i] != pushed(l, v)[j] by {
            let q = pushed(l, v);
            if i > 0 {
                assert(q[i] == l[i - 1]);
            }
            if j > 0 {
                assert(q[j] == l[j - 1]);
            }
        }
    }
}

/// Law: pushing the value that is already at the front changes nothing.
pub proof fn lemma_push_of_head_is_identity(l: Seq<Seq<char>>, v: Seq<char>)
    requires
        l.no_duplicates(),
        l.len() > 0,
        l[0] == v,
    ensures
        pushed(l, v) == l,
{
    lemma_without_at(l, v, 0);
    assert(seq![v] + l.remove(0) =~= l);
}

/// Law: pushing a value and then removing it leaves the list that removing
/// it alone would have left.
pub proof fn lemma_remove_undoes_push(l: Seq<Seq<char>>, v: Seq<char>)
    requires
        l.no_duplicates(),
    ensures
        without(pushed(l, v), v) == without(l, v),
{
    lemma_pushed_shape(l, v);
    lemma_without_at(pushed(l, v), v, 0);
    assert(pushed(l, v).remove(0) =~= without(l, v));
}

/// Law: pushing a sequence of values never produces a repeat.
pub proof fn lemma_pushed_all_no_duplicates(items: Seq<Seq<char>>)
    ensures
        pushed_all(items).no_duplicates(),
    decreases items.len(),
{
    if items.len() > 0 {
        lemma_pushed_all_no_duplicates(items.drop_last());
        lemma_pushed_shape(pushed_all(items.drop_last()), items.last());
    }
}

/// Node stored in the arena; links are slot indices.
struct Node {
    value: String,
    prev: Option<usize>,
    next: Option<usize>,
}

spec fn node_val(n: Option<Node>) -> Seq<char> {
    match n {
        Some(n) => n.value@,
        None => Seq::empty(),
    }
}

spec fn node_prev(n: Option<Node>) -> Option<usize> {
    match n {
        Some(n) => n.prev,
        None => None,
    }
}

spec fn node_next(n: Option<Node>) -> Option<usize> {
    match n {
        Some(n) => n.next,
        None => None,
    }
}

/// Slots in `order`, read through `nodes`, give these values.
spec fn values_of(nodes: Seq<Option<Node>>, order: Seq<usize>) -> Seq<Seq<char>> {
    order.map_values(|s: usize| node_val(nodes[s as int]))
}

/// `order` is a doubly linked chain through `nodes` from `head` to `tail`.
#[verifier::opaque]
spec fn chain_ok(
    nodes: Seq<Option<Node>>,
    order: Seq<usize>,
    head: Option<usize>,
    tail: Option<usize>,
) -> bool {
    &&& order.no_duplicates()
    &&& forall|i: int|
        0 <= i < order.len() ==> (#[trigger] order[i]) < nodes.len() && nodes[order[i] as int] is Some
    &&& head == (if order.len() == 0 {
        None::<usize>
    } else {
        Some(order[0])
    })
    &&& tail == (if order.len() == 0 {
        None::<usize>
    } else {
        Some(order.last())
    })
    &&& forall|i: int|
        0 <= i < order.len() ==> node_prev(nodes[#[trigger] order[i] as int]) == (if i == 0 {
            None::<usize>
        } else {
            Some(order[i - 1])
        })
    &&& forall|i: int|
        0 <= i < order.len() ==> node_next(nodes[#[trigger] order[i] as int]) == (if i == order.len()
            - 1 {
            None::<usize>
        } else {
            Some(order[i + 1])
        })
}


/// `nodes` is `nodes0` with position `p` of `order` unlinked.
spec fn unlinked(
    nodes0: Seq<Option<Node>>,
    nodes: Seq<Option<Node>>,
    order: Seq<usize>,
    p: int,
    head0: Option<usize>,
    tail0: Option<usize>,
    head: Option<usize>,
    tail: Option<usize>,
) -> bool {
    &&& chain_ok(nodes0, order, head0, tail0)
    &&& 0 <= p < order.len()
    &&& same_values(nodes0, nodes)
    &&& forall|t: int|
            0 <= t < nodes0.len() && t != order[p] && (p == 0 || t != order[p - 1]) && (p + 1
                >= order.len() || t != order[p + 1]) ==> nodes[t] == nodes0[t]
    &&& p > 0 ==> node_prev(nodes[order[p - 1] as int]) == node_prev(nodes0[order[p - 1] as int])
    &&& p > 0 ==> node_next(nodes[order[p - 1] as int]) == (if p + 1 < order.len() {
            Some(order[p + 1])
        } else {
            None::<usize>
        })
    &&& p + 1 < order.len() ==> node_next(nodes[order[p + 1] as int]) == node_next(
            nodes0[order[p + 1] as int],
        )
    &&& p + 1 < order.len() ==> node_prev(nodes[order[p + 1] as int]) == (if p > 0 {
            Some(order[p - 1])
        } else {
            None::<usize>
        })
    &&& head == (if p == 0 {
            if order.len() > 1 {
                Some(order[1])
            } else {
                None::<usize>
            }
        } else {
            head0
        })
    &&& tail == (if p == order.len() - 1 {
            if p > 0 {
                Some(order[p - 1])
            } else {
                None::<usize>
            }
        } else {
            tail0
        })
}

proof fn lemma_unlink_slots(
    nodes0: Seq<Option<Node>>,
    nodes: Seq<Option<Node>>,
    order: Seq<usize>,
    p: int,
    head0: Option<usize>,
    tail0: Option<usize>,
    head: Option<usize>,
    tail: Option<usize>,
)
    requires
        unlinked(nodes0, nodes, order, p, head0, tail0, head, tail),
    ensures
        order.remove(p).no_duplicates(),
        forall|i: int|
            0 <= i < order.remove(p).len() ==> (#[trigger] order.remove(p)[i]) < nodes.len()
                && nodes[order.remove(p)[i] as int] is Some,
{
    reveal(chain_ok);
    let new_order = order.remove(p);
    let n = order.len();
    assert forall|i: int, j: int|
        0 <= i < new_order.len() && 0 <= j < new_order.len() && i != j implies new_order[i]
        != new_order[j] by {
        let ii = if i < p {
            i
        } else {
            i + 1
        };
        let jj = if j < p {
            j
        } else {
            j + 1
        };
        assert(new_order[i] == order[ii]);
        assert(new_order[j] == order[jj]);
    }
    assert forall|i: int| 0 <= i < new_order.len() implies (#[trigger] new_order[i]) < nodes.len()
        && nodes[new_order[i] as int] is Some by {
        let ii = if i < p {
            i
        } else {
            i + 1
        };
        assert(new_order[i] == order[ii]);
        assert(nodes0[order[ii] as int] is Some);
    }
}

proof fn lemma_unlink_prev(
    nodes0: Seq<Option<Node>>,
    nodes: Seq<Option<Node>>,
    order: Seq<usize>,
    p: int,
    head0: Option<usize>,
    tail0: Option<usize>,
    head: Option<usize>,
    tail: Option<usize>,
)
    requires
        unlinked(nodes0, nodes, order, p, head0, tail0, head, tail),
    ensures
        forall|i: int|
            0 <= i < order.remove(p).len() ==> node_prev(nodes[#[trigger] order.remove(p)[i] as int])
                == (if i == 0 {
                None::<usize>
            } else {
                Some(order.remove(p)[i - 1])
            }),
{
    reveal(chain_ok);
    let new_order = order.remove(p);
    let n = order.len();
    assert forall|i: int| 0 <= i < new_order.len() implies node_prev(
        nodes[#[trigger] new_order[i] as int],
    ) == (if i == 0 {
        None::<usize>
    } else {
        Some(new_order[i - 1])
    }) by {
        if i < p - 1 {
            assert(new_order[i] == order[i]);
            assert(order[i] != order[p]);
            assert(order[i] != order[p - 1]);
            if p + 1 < n {
                assert(order[i] != order[p + 1]);
            }
            if i > 0 {
                assert(new_order[i - 1] == order[i - 1]);
            }
        } else if i == p - 1 {
            assert(new_order[i] == order[p - 1]);
            if i > 0 {
                assert(new_order[i - 1] == order[i - 1]);
            }
        } else if i == p {
            assert(new_order[i] == order[p + 1]);
            if i > 0 {
                assert(new_order[i - 1] == order[p - 1]);
            }
        } else {
            assert(new_order[i] == order[i + 1]);
            assert(new_order[i - 1] == order[i]);
            assert(order[i + 1] != order[p]);
            assert(order[i + 1] != order[p + 1]);
            if p > 0 {
                assert(order[i + 1] != order[p - 1]);
            }
        }
    }
}

proof fn lemma_unlink_next(
    nodes0: Seq<Option<Node>>,
    nodes: Seq<Option<Node>>,
    order: Seq<usize>,
    p: int,
    head0: Option<usize>,
    tail0: Option<usize>,
    head: Option<usize>,
    tail: Option<usize>,
)
    requires
        unlinked(nodes0, nodes, order, p, head0, tail0, head, tail),
    ensures
        forall|i: int|
            0 <= i < order.remove(p).len() ==> node_next(nodes[#[trigger] order.remove(p)[i] as int])
                == (if i == order.remove(p).len() - 1 {
                None::<usize>
            } else {
                Some(order.remove(p)[i + 1])
            }),
{
    reveal(chain_ok);
    let new_order = order.remove(p);
    let n = order.len();
    assert forall|i: int| 0 <= i < new_order.len() implies node_next(
        nodes[#[trigger] new_order[i] as int],
    ) == (if i == new_order.len() - 1 {
        None::<usize>
    } else {
        Some(new_order[i + 1])
    }) by {
        if i < p - 1 {
            assert(new_order[i] == order[i]);
            assert(new_order[i + 1] == order[i + 1]);
            assert(order[i] != order[p]);
            assert(order[i] != order[p - 1]);
            if p + 1 < n {
                assert(order[i] != order[p + 1]);
            }
        } else if i == p - 1 {
            assert(new_order[i] == order[p - 1]);
            if i < new_order.len() - 1 {
                assert(new_order[i + 1] == order[p + 1]);
            }
        } else if i == p {
            assert(new_order[i] == order[p + 1]);
            if i < new_order.len() - 1 {
                assert(new_order[i + 1] == order[p + 2]);
            }
        } else {
            assert(new_order[i] == order[i + 1]);
            assert(order[i + 1] != order[p]);
            assert(order[i + 1] != order[p + 1]);
            if p > 0 {
                assert(order[i + 1] != order[p - 1]);
            }
            if i < new_order.len() - 1 {
                assert(new_order[i + 1] == order[i + 2]);
            }
        }
    }
}

/// Removing position `p` from a chain: the neighbours of `order[p]` are
/// linked to each other and nothing else changes.
proof fn lemma_unlink(
    nodes0: Seq<Option<Node>>,
    nodes: Seq<Option<Node>>,
    order: Seq<usize>,
    p: int,
    head0: Option<usize>,
    tail0: Option<usize>,
    head: Option<usize>,
    tail: Option<usize>,
)
    requires
        unlinked(nodes0, nodes, order, p, head0, tail0, head, tail),
    ensures
        chain_ok(nodes, order.remove(p), head, tail),
{
    reveal(chain_ok);
    let new_order = order.remove(p);
    let n = order.len();
    lemma_unlink_slots(nodes0, nodes, order, p, head0, tail0, head, tail);
    lemma_unlink_prev(nodes0, nodes, order, p, head0, tail0, head, tail);
    lemma_unlink_next(nodes0, nodes, order, p, head0, tail0, head, tail);
    if new_order.len() > 0 {
        if p == 0 {
            assert(new_order[0] == order[1]);
        } else {
            assert(new_order[0] == order[0]);
        }
        if p == n - 1 {
            assert(new_order.last() == order[p - 1]);
        } else {
            assert(new_order.last() == order.last());
        }
    }
}


/// A chain only reads the slots it passes through.
proof fn lemma_chain_same_nodes(
    a: Seq<Option<Node>>,
    b: Seq<Option<Node>>,
    order: Seq<usize>,
    head: Option<usize>,
    tail: Option<usize>,
)
    requires
        chain_ok(a, order, head, tail),
        a.len() == b.len(),
        forall|i: int| 0 <= i < order.len() ==> a[#[trigger] order[i] as int] == b[order[i] as int],
    ensures
        chain_ok(b, order, head, tail),
{
    reveal(chain_ok);
}

/// Every slot keeps its occupancy and its value.
spec fn same_values(a: Seq<Option<Node>>, b: Seq<Option<Node>>) -> bool {
    &&& a.len() == b.len()
    &&& forall|s: int|
        #![trigger a[s]]
        #![trigger b[s]]
        0 <= s < a.len() ==> (a[s] is Some <==> b[s] is Some) && node_val(a[s]) == node_val(b[s])
}

fn set_next(nodes: &mut Vec<Option<Node>>, s: usize, v: Option<usize>)
    requires
        s < old(nodes)@.len(),
        old(nodes)@[s as int] is Some,
    ensures
        final(nodes)@.len() == old(nodes)@.len(),
        forall|t: int| 0 <= t < old(nodes)@.len() && t != s ==> final(nodes)@[t] == old(nodes)@[t],
        final(nodes)@[s as int] is Some,
        node_val(final(nodes)@[s as int]) == node_val(old(nodes)@[s as int]),
        node_prev(final(nodes)@[s as int]) == node_prev(old(nodes)@[s as int]),
        node_next(final(nodes)@[s as int]) == v,
{
    if let Some(n) = &mut nodes[s] {
        n.next = v;
    }
}

fn set_prev(nodes: &mut Vec<Option<Node>>, s: usize, v: Option<usize>)
    requires
        s < old(nodes)@.len(),
        old(nodes)@[s as int] is Some,
    ensures
        final(nodes)@.len() == old(nodes)@.len(),
        forall|t: int| 0 <= t < old(nodes)@.len() && t != s ==> final(nodes)@[t] == old(nodes)@[t],
        final(nodes)@[s as int] is Some,
        node_val(final(nodes)@[s as int]) == node_val(old(nodes)@[s as int]),
        node_next(final(nodes)@[s as int]) == node_next(old(nodes)@[s as int]),
        node_prev(final(nodes)@[s as int]) == v,
{
    if let Some(n) = &mut nodes[s] {
        n.prev = v;
    }
}

/// Most-recently-used list of distinct strings, front = most recent.
pub struct HistoryList {
    nodes: Vec<Option<Node>>,
    free_slots: Vec<usize>,
    index: StringHashMap<usize>,
    head: Option<usize>,
    tail: Option<usize>,
    len: usize,
    order: Ghost<Seq<usize>>,
}

/// The list of strings most callers want.
pub type StringHistoryList = HistoryList;

impl View for HistoryList {
    type V = Seq<Seq<char>>;

    closed spec fn view(&self) -> Seq<Seq<char>> {
        values_of(self.nodes@, self.order@)
    }
}

impl HistoryList {
    spec fn slot_val(&self, s: usize) -> Seq<char> {
        node_val(self.nodes@[s as int])
    }

    spec fn free_ok(&self) -> bool {
        &&& self.free_slots@.no_duplicates()
        &&& forall|j: int|
            0 <= j < self.free_slots@.len() ==> (#[trigger] self.free_slots@[j]) < self.nodes@.len()
                && self.nodes@[self.free_slots@[j] as int] is None
    }

    spec fn index_ok(&self) -> bool {
        let order = self.order@;
        &&& forall|i: int|
            0 <= i < order.len() ==> self.index@.contains_key(self.slot_val(#[trigger] order[i]))
                && self.index@[self.slot_val(order[i])] == order[i]
        &&& forall|k: Seq<char>|
            #[trigger] self.index@.contains_key(k) ==> exists|i: int|
                0 <= i < order.len() && order[i] == self.index@[k] && self.slot_val(order[i]) == k
    }

    /// The arena, the links, the free list and the index agree.
    pub closed spec fn wf(&self) -> bool {
        &&& chain_ok(self.nodes@, self.order@, self.head, self.tail)
        &&& self.len == self.order@.len()
        &&& self.free_ok()
        &&& self.nodes@.len() == self.order@.len() + self.free_slots@.len()
        &&& self.index_ok()
    }

    /// Number of arena slots, live or free.
    pub closed spec fn spec_slot_count(&self) -> nat {
        self.nodes@.len()
    }

    proof fn lemma_wf_facts(&self)
        requires
            self.wf(),
        ensures
            self@.no_duplicates(),
            self@.len() == self.len,
            self.spec_slot_count() >= self@.len(),
            self.order@.no_duplicates(),
            forall|i: int|
                0 <= i < self.order@.len() ==> (#[trigger] self.order@[i]) < self.nodes@.len()
                    && self.nodes@[self.order@[i] as int] is Some,
            forall|k: Seq<char>| #[trigger] self@.contains(k) <==> self.index@.contains_key(k),
    {
        reveal(chain_ok);
        let order = self.order@;
        let v = self@;
        assert forall|i: int, j: int| 0 <= i < v.len() && 0 <= j < v.len() && i != j implies v[i]
            != v[j] by {
            if v[i] == v[j] {
                assert(self.index@[self.slot_val(order[i])] == order[i]);
                assert(self.index@[self.slot_val(order[j])] == order[j]);
            }
        }
        assert forall|k: Seq<char>| #[trigger] v.contains(k) <==> self.index@.contains_key(k) by {
            if v.contains(k) {
                let i = choose|i: int| 0 <= i < v.len() && v[i] == k;
                assert(order[i] == order[i]);
            }
            if self.index@.contains_key(k) {
                let i = choose|i: int|
                    0 <= i < order.len() && order[i] == self.index@[k] && self.slot_val(order[i])
                        == k;
                assert(v[i] == k);
            }
        }
    }

    /// Position in the recency order of the slot that the index gives for `k`.
    proof fn lemma_index_pos(&self, k: Seq<char>) -> (p: int)
        requires
            self.wf(),
            self.index@.contains_key(k),
        ensures
            0 <= p < self.order@.len(),
            self.order@[p] == self.index@[k],
            self.slot_val(self.order@[p]) == k,
            self@[p] == k,
    {
        choose|i: int|
            0 <= i < self.order@.len() && self.order@[i] == self.index@[k] && self.slot_val(
                self.order@[i],
            ) == k
    }

    /// Creates an empty list.
    pub fn new() -> (r: Self)
        ensures
            r.wf(),
            r@ == Seq::<Seq<char>>::empty(),
            r.spec_slot_count() == 0,
    {
        proof {
            reveal(chain_ok);
        }
        HistoryList {
            nodes: Vec::new(),
            free_slots: Vec::new(),
            index: StringHashMap::new(),
            head: None,
            tail: None,
            len: 0,
            order: Ghost(Seq::empty()),
        }
    }

    /// Unlinks the node at `slot` (position `p` of the order) without
    /// freeing its arena slot.
    fn detach(&mut self, slot: usize, Ghost(p): Ghost<int>)
        requires
            chain_ok(old(self).nodes@, old(self).order@, old(self).head, old(self).tail),
            0 <= p < old(self).order@.len(),
            old(self).order@[p] == slot,
        ensures
            chain_ok(final(self).nodes@, final(self).order@, final(self).head, final(self).tail),
            final(self).order@ == old(self).order@.remove(p),
            same_values(old(self).nodes@, final(self).nodes@),
            final(self).nodes@[slot as int] is Some,
            node_prev(final(self).nodes@[slot as int]) is None,
            node_next(final(self).nodes@[slot as int]) is None,
            final(self).free_slots == old(self).free_slots,
            final(self).index == old(self).index,
            final(self).len == old(self).len,
    {
        proof {
            reveal(chain_ok);
        }
        let ghost order = self.order@;
        let ghost nodes0 = self.nodes@;
        let (prev, next) = match &self.nodes[slot] {
            Some(n) => (n.prev, n.next),
            None => (None, None),
        };
        assert(prev == node_prev(nodes0[slot as int]));
        assert(next == node_next(nodes0[slot as int]));
        match prev {
            Some(pv) => {
                assert(pv == order[p - 1]);
                set_next(&mut self.nodes, pv, next);
            },
            None => {
                self.head = next;
            },
        }
        let ghost nodes1 = self.nodes@;
        match next {
            Some(nx) => {
                assert(nx == order[p + 1]);
                set_prev(&mut self.nodes, nx, prev);
            },
            None => {
                self.tail = prev;
            },
        }
        set_prev(&mut self.nodes, slot, None);
        set_next(&mut self.nodes, slot, None);
        proof {
            assert(unlinked(
                nodes0,
                self.nodes@,
                order,
                p,
                old(self).head,
                old(self).tail,
                self.head,
                self.tail,
            ));
            lemma_unlink(
                nodes0,
                self.nodes@,
                order,
                p,
                old(self).head,
                old(self).tail,
                self.head,
                self.tail,
            );
        }
        self.order = Ghost(order.remove(p));
    }

    /// Links an allocated, unlinked node as the new head.
    fn attach_head(&mut self, slot: usize)
        requires
            chain_ok(old(self).nodes@, old(self).order@, old(self).head, old(self).tail),
            slot < old(self).nodes@.len(),
            old(self).nodes@[slot as int] is Some,
            !old(self).order@.contains(slot),
        ensures
            chain_ok(final(self).nodes@, final(self).order@, final(self).head, final(self).tail),
            final(self).order@ == seq![slot] + old(self).order@,
            same_values(old(self).nodes@, final(self).nodes@),
            final(self).free_slots == old(self).free_slots,
            final(self).index == old(self).index,
            final(self).len == old(self).len,
    {
        proof {
            reveal(chain_ok);
        }
        let ghost order = self.order@;
        let ghost nodes0 = self.nodes@;
        let old_head = self.head;
        if let Some(h) = old_head {
            assert(h == order[0]);
            set_prev(&mut self.nodes, h, Some(slot));
        }
        set_next(&mut self.nodes, slot, old_head);
        set_prev(&mut self.nodes, slot, None);
        self.head = Some(slot);
        if self.tail.is_none() {
            self.tail = Some(slot);
        }
        let ghost new_order = seq![slot] + order;
        self.order = Ghost(new_order);
        proof {
            let nodes = self.nodes@;
            assert(same_values(nodes0, nodes));
            assert forall|i: int, j: int|
                0 <= i < new_order.len() && 0 <= j < new_order.len() && i != j implies new_order[i]
                != new_order[j] by {
                if i > 0 && j > 0 {
                    assert(new_order[i] == order[i - 1]);
                    assert(new_order[j] == order[j - 1]);
                } else if i == 0 {
                    assert(new_order[j] == order[j - 1]);
                } else {
                    assert(new_order[i] == order[i - 1]);
                }
            }
            assert forall|i: int| 0 <= i < new_order.len() implies (#[trigger] new_order[i])
                < nodes.len() && nodes[new_order[i] as int] is Some && node_prev(
                nodes[new_order[i] as int],
            ) == (if i == 0 {
                None::<usize>
            } else {
                Some(new_order[i - 1])
            }) && node_next(nodes[new_order[i] as int]) == (if i == new_order.len() - 1 {
                None::<usize>
            } else {
                Some(new_order[i + 1])
            }) by {
                if i > 0 {
                    assert(new_order[i] == order[i - 1]);
                    assert(order[i - 1] != slot);
                    if i > 1 {
                        assert(new_order[i - 1] == order[i - 2]);
                        assert(order[i - 1] != order[0]);
                    }
                    if i < new_order.len() - 1 {
                        assert(new_order[i + 1] == order[i]);
                    }
                } else {
                    if new_order.len() > 1 {
                        assert(new_order[1] == order[0]);
                    }
                }
            }
            assert(new_order.last() == if order.len() == 0 {
                slot
            } else {
                order.last()
            });
        }
    }

    /// Takes an arena slot for `value`, reusing a freed slot when there is one.
    fn alloc_slot(&mut self, value: String) -> (slot: usize)
        requires
            old(self).wf(),
        ensures
            chain_ok(final(self).nodes@, final(self).order@, final(self).head, final(self).tail),
            final(self).order == old(self).order,
            final(self).len == old(self).len,
            final(self).index == old(self).index,
            slot < final(self).nodes@.len(),
            !old(self).order@.contains(slot),
            final(self).nodes@[slot as int] is Some,
            node_val(final(self).nodes@[slot as int]) == value@,
            forall|t: int|
                0 <= t < old(self).nodes@.len() && t != slot ==> final(self).nodes@[t] == old(
                    self,
                ).nodes@[t],
            final(self).free_ok(),
            final(self).nodes@.len() == final(self).order@.len() + final(self).free_slots@.len()
                + 1,
            final(self).nodes@.len() == max_nat(old(self).nodes@.len(), old(self).order@.len() + 1),
            final(self).head == old(self).head,
            final(self).tail == old(self).tail,
            final(self).nodes@[slot as int] == Some(Node { value, prev: None, next: None }),
            old(self).free_slots@.len() > 0 ==> slot == old(self).free_slots@.last()
                && final(self).free_slots@ == old(self).free_slots@.drop_last()
                && final(self).nodes@.len() == old(self).nodes@.len(),
            old(self).free_slots@.len() == 0 ==> slot == old(self).nodes@.len()
                && final(self).free_slots@ == old(self).free_slots@
                && final(self).nodes@.len() == old(self).nodes@.len() + 1,
    {
        proof {
            reveal(chain_ok);
        }
        let ghost order = self.order@;
        let ghost free0 = self.free_slots@;
        let node = Node { value, prev: None, next: None };
        if let Some(slot) = self.free_slots.pop() {
            assert(free0[free0.len() - 1] == slot);
            assert(!order.contains(slot)) by {
                if order.contains(slot) {
                    let i = choose|i: int| 0 <= i < order.len() && order[i] == slot;
                    assert(self.nodes@[order[i] as int] is Some);
                }
            }
            let mut tmp = Some(node);
            self.nodes.set_and_swap(slot, &mut tmp);
            proof {
                let free = self.free_slots@;
                assert forall|j: int| 0 <= j < free.len() implies (#[trigger] free[j])
                    < self.nodes@.len() && self.nodes@[free[j] as int] is None by {
                    assert(free[j] == free0[j]);
                    assert(free0[j] != free0[free0.len() - 1]);
                }
                assert forall|i: int| 0 <= i < order.len() implies self.nodes@[#[trigger] order[i] as int]
                    == old(self).nodes@[order[i] as int] by {
                    assert(order[i] != slot);
                }
            }
            slot
        } else {
            self.nodes.push(Some(node));
            let slot = self.nodes.len() - 1;
            assert(!order.contains(slot)) by {
                if order.contains(slot) {
                    let i = choose|i: int| 0 <= i < order.len() && order[i] == slot;
                }
            }
            proof {
                assert forall|i: int| 0 <= i < order.len() implies self.nodes@[#[trigger] order[i] as int]
                    == old(self).nodes@[order[i] as int] by {}
            }
            slot
        }
    }

    /// Frees the arena slot of an unlinked node.
    fn free_slot(&mut self, slot: usize)
        requires
            slot < old(self).nodes@.len(),
            old(self).nodes@[slot as int] is Some,
            old(self).free_ok(),
        ensures
            final(self).nodes@ == old(self).nodes@.update(slot as int, None),
            final(self).free_slots@ == old(self).free_slots@.push(slot),
            final(self).free_ok(),
            final(self).order == old(self).order,
            final(self).head == old(self).head,
            final(self).tail == old(self).tail,
            final(self).index == old(self).index,
            final(self).len == old(self).len,
    {
        let ghost free0 = self.free_slots@;
        self.nodes.set(slot, None);
        self.free_slots.push(slot);
        proof {
            let free = self.free_slots@;
            assert forall|i: int, j: int|
                0 <= i < free.len() && 0 <= j < free.len() && i != j implies free[i] != free[j] by {
                if i < free0.len() && j < free0.len() {
                } else if i < free0.len() {
                    assert(old(self).nodes@[free0[i] as int] is None);
                } else {
                    assert(old(self).nodes@[free0[j] as int] is None);
                }
            }
            assert forall|j: int| 0 <= j < free.len() implies (#[trigger] free[j]) < self.nodes@.len()
                && self.nodes@[free[j] as int] is None by {
                if j < free0.len() {
                    assert(free[j] == free0[j]);
                }
            }
        }
    }

    /// Slot that the index holds for `s`, if any.
    fn find_slot(&self, s: &str) -> (r: Option<usize>)
        ensures
            r == (if self.index@.contains_key(s@) {
                Some(self.index@[s@])
            } else {
                None::<usize>
            }),
    {
        match self.index.get(s) {
            Some(slot) => Some(*slot),
            None => None,
        }
    }

    /// Moving position `p` to the front keeps the index consistent.
    proof fn lemma_index_moved(a: &HistoryList, b: &HistoryList, p: int)
        requires
            a.index_ok(),
            a.order@.no_duplicates(),
            forall|i: int| 0 <= i < a.order@.len() ==> #[trigger] a.order@[i] < a.nodes@.len(),
            0 <= p < a.order@.len(),
            b.index@ == a.index@,
            same_values(a.nodes@, b.nodes@),
            b.order@ == seq![a.order@[p]] + a.order@.remove(p),
        ensures
            b.index_ok(),
            b@ == seq![a@[p]] + a@.remove(p),
    {
        let order0 = a.order@;
        let order = b.order@;
        assert forall|i: int| 0 <= i < order.len() implies b.index@.contains_key(
            b.slot_val(#[trigger] order[i]),
        ) && b.index@[b.slot_val(order[i])] == order[i] by {
            let q = if i == 0 {
                p
            } else if i - 1 < p {
                i - 1
            } else {
                i
            };
            if i > 0 {
                assert(order[i] == a.order@.remove(p)[i - 1]);
            }
            assert(order[i] == order0[q]);
            assert(a.index@.contains_key(a.slot_val(order0[q])));
            assert(a.index@[a.slot_val(order0[q])] == order0[q]);
            assert(b.slot_val(order0[q]) == a.slot_val(order0[q]));
        }
        assert forall|k: Seq<char>| #[trigger] b.index@.contains_key(k) implies exists|i: int|
            0 <= i < order.len() && order[i] == b.index@[k] && b.slot_val(order[i]) == k by {
            let q = choose|q: int|
                0 <= q < order0.len() && order0[q] == a.index@[k] && a.slot_val(order0[q]) == k;
            assert(b.slot_val(order0[q]) == a.slot_val(order0[q]));
            let i = if q == p {
                0
            } else if q < p {
                q + 1
            } else {
                q
            };
            assert(order[i] == order0[q]);
        }
        assert forall|i: int| 0 <= i < b@.len() implies b@[i] == (seq![a@[p]] + a@.remove(p))[i] by {
            let q = if i == 0 {
                p
            } else if i - 1 < p {
                i - 1
            } else {
                i
            };
            assert(order[i] == order0[q]);
        }
        assert(b@ =~= seq![a@[p]] + a@.remove(p));
    }

    /// Putting a fresh slot holding `v` at the front keeps the index consistent.
    proof fn lemma_index_inserted(a: &HistoryList, b: &HistoryList, slot: usize, v: Seq<char>)
        requires
            a.index_ok(),
            !a.index@.contains_key(v),
            !a.order@.contains(slot),
            b.index@ == a.index@.insert(v, slot),
            b.order@ == seq![slot] + a.order@,
            b.slot_val(slot) == v,
            forall|q: int|
                0 <= q < a.order@.len() ==> b.slot_val(#[trigger] a.order@[q]) == a.slot_val(
                    a.order@[q],
                ),
        ensures
            b.index_ok(),
            b@ == seq![v] + a@,
    {
        let order0 = a.order@;
        let order = b.order@;
        assert forall|i: int| 0 <= i < order.len() implies b.index@.contains_key(
            b.slot_val(#[trigger] order[i]),
        ) && b.index@[b.slot_val(order[i])] == order[i] by {
            if i > 0 {
                assert(order[i] == order0[i - 1]);
                assert(a.index@[a.slot_val(order0[i - 1])] == order0[i - 1]);
            }
        }
        assert forall|k: Seq<char>| #[trigger] b.index@.contains_key(k) implies exists|i: int|
            0 <= i < order.len() && order[i] == b.index@[k] && b.slot_val(order[i]) == k by {
            if k == v {
                assert(order[0] == slot);
            } else {
                let q = choose|q: int|
                    0 <= q < order0.len() && order0[q] == a.index@[k] && a.slot_val(order0[q])
                        == k;
                assert(order[q + 1] == order0[q]);
            }
        }
        assert forall|i: int| 0 <= i < b@.len() implies b@[i] == (seq![v] + a@)[i] by {
            if i > 0 {
                assert(order[i] == order0[i - 1]);
            }
        }
        assert(b@ =~= seq![v] + a@);
    }

    /// Dropping position `p` from the order and its value from the index
    /// keeps the index consistent.
    proof fn lemma_index_removed(a: &HistoryList, b: &HistoryList, p: int)
        requires
            a.index_ok(),
            a.order@.no_duplicates(),
            a@.no_duplicates(),
            0 <= p < a.order@.len(),
            b.index@ == a.index@.remove(a@[p]),
            b.order@ == a.order@.remove(p),
            forall|q: int|
                0 <= q < a.order@.len() && q != p ==> b.slot_val(#[trigger] a.order@[q])
                    == a.slot_val(a.order@[q]),
        ensures
            b.index_ok(),
            b@ == a@.remove(p),
    {
        let order0 = a.order@;
        let order = b.order@;
        let view0 = a@;
        assert forall|i: int| 0 <= i < order.len() implies b.index@.contains_key(
            b.slot_val(#[trigger] order[i]),
        ) && b.index@[b.slot_val(order[i])] == order[i] by {
            let q = if i < p {
                i
            } else {
                i + 1
            };
            assert(order[i] == order0[q]);
            assert(a.index@[a.slot_val(order0[q])] == order0[q]);
            assert(view0[q] != view0[p]);
        }
        assert forall|k: Seq<char>| #[trigger] b.index@.contains_key(k) implies exists|i: int|
            0 <= i < order.len() && order[i] == b.index@[k] && b.slot_val(order[i]) == k by {
            let q = choose|q: int|
                0 <= q < order0.len() && order0[q] == a.index@[k] && a.slot_val(order0[q]) == k;
            assert(q != p);
            let i = if q < p {
                q
            } else {
                q - 1
            };
            assert(order[i] == order0[q]);
        }
        assert forall|i: int| 0 <= i < b@.len() implies b@[i] == a@.remove(p)[i] by {
            let q = if i < p {
                i
            } else {
                i + 1
            };
            assert(order[i] == order0[q]);
        }
        assert(b@ =~= a@.remove(p));
    }

    /// Moves the node at `slot` (the one holding `s`) to the front.
    fn move_to_front(&mut self, s: &str, slot: usize)
        requires
            old(self).wf(),
            old(self).index@.contains_key(s@),
            old(self).index@[s@] == slot,
        ensures
            final(self).wf(),
            final(self)@ == pushed(old(self)@, s@),
            final(self).spec_slot_count() == old(self).spec_slot_count(),
    {
        proof {
            self.lemma_wf_facts();
        }
        let ghost p = self.lemma_index_pos(s@);
        let ghost order0 = self.order@;
        self.detach(slot, Ghost(p));
        assert(!self.order@.contains(slot)) by {
            if self.order@.contains(slot) {
                let j = choose|j: int| 0 <= j < self.order@.len() && self.order@[j] == slot;
                let jj = if j < p {
                    j
                } else {
                    j + 1
                };
                assert(order0[jj] == slot);
            }
        }
        self.attach_head(slot);
        proof {
            HistoryList::lemma_index_moved(old(self), self, p);
            lemma_without_at(old(self)@, s@, p);
            assert forall|j: int| 0 <= j < self.free_slots@.len() implies (
            #[trigger] self.free_slots@[j]) < self.nodes@.len() && self.nodes@[self.free_slots@[j] as int] is None by {
                assert(old(self).nodes@[self.free_slots@[j] as int] is None);
            }
        }
    }

    /// Adds a value that is not in the list at the front.
    #[verifier::rlimit(40)]
    fn insert_new(&mut self, s: &str)
        requires
            old(self).wf(),
            !old(self).index@.contains_key(s@),
        ensures
            final(self).wf(),
            final(self)@ == pushed(old(self)@, s@),
            final(self).spec_slot_count() == max_nat(
                old(self).spec_slot_count(),
                final(self)@.len(),
            ),
    {
        proof {
            self.lemma_wf_facts();
            lemma_without_absent(self@, s@);
        }
        let value = s.to_owned();
        let key = s.to_owned();
        let slot = self.alloc_slot(value);
        self.index.insert(key, slot);
        let ghost nodes1 = self.nodes@;
        self.attach_head(slot);
        let arena_len = self.nodes.len();
        assert(self.len < arena_len);
        self.len = self.len + 1;
        proof {
            assert forall|q: int| 0 <= q < old(self).order@.len() implies self.slot_val(
                #[trigger] old(self).order@[q],
            ) == old(self).slot_val(old(self).order@[q]) by {
                assert(old(self).order@[q] != slot);
                assert(node_val(nodes1[old(self).order@[q] as int]) == node_val(
                    self.nodes@[old(self).order@[q] as int],
                ));
            }
            HistoryList::lemma_index_inserted(old(self), self, slot, s@);
            assert forall|j: int| 0 <= j < self.free_slots@.len() implies (
            #[trigger] self.free_slots@[j]) < self.nodes@.len() && self.nodes@[self.free_slots@[j] as int] is None by {
                assert(nodes1[self.free_slots@[j] as int] is None);
            }
        }
    }

    /// Adds `s` at the front; if it is already present anywhere in the list it
    /// is moved to the front instead, so no duplicate is ever created.
    pub fn push_str(&mut self, s: &str)
        requires
            old(self).wf(),
        ensures
            final(self).wf(),
            final(self)@ == pushed(old(self)@, s@),
            final(self).spec_slot_count() == max_nat(
                old(self).spec_slot_count(),
                final(self)@.len(),
            ),
    {
        proof {
            self.lemma_wf_facts();
            lemma_pushed_shape(self@, s@);
        }
        match self.find_slot(s) {
            Some(slot) => self.move_to_front(s, slot),
            None => self.insert_new(s),
        }
    }

    /// Adds `value` at the front, moving it there if already present.
    pub fn push_front(&mut self, value: String)
        requires
            old(self).wf(),
        ensures
            final(self).wf(),
            final(self)@ == pushed(old(self)@, value@),
            final(self).spec_slot_count() == max_nat(
                old(self).spec_slot_count(),
                final(self)@.len(),
            ),
    {
        self.push_str(value.as_str());
    }

    /// Removes `s` if present; returns whether it was.
    pub fn remove_str(&mut self, s: &str) -> (removed: bool)
        requires
            old(self).wf(),
        ensures
            final(self).wf(),
            removed == old(self)@.contains(s@),
            final(self)@ == without(old(self)@, s@),
            final(self).spec_slot_count() == old(self).spec_slot_count(),
    {
        proof {
            self.lemma_wf_facts();
        }
        match self.find_slot(s) {
            Some(slot) => {
                let ghost p = self.lemma_index_pos(s@);
                let ghost order0 = self.order@;
                self.index.remove(s);
                self.detach(slot, Ghost(p));
                let ghost nodes1 = self.nodes@;
                self.free_slot(slot);
                self.len = self.len - 1;
                proof {
                    assert forall|q: int| 0 <= q < order0.len() && q != p implies self.slot_val(
                        #[trigger] order0[q],
                    ) == old(self).slot_val(order0[q]) by {
                        assert(order0[q] != order0[p]);
                    }
                    HistoryList::lemma_index_removed(old(self), self, p);
                    lemma_without_at(old(self)@, s@, p);
                    assert forall|i: int| 0 <= i < self.order@.len() implies nodes1[#[trigger] self.order@[i] as int]
                        == self.nodes@[self.order@[i] as int] by {
                        let q = if i < p {
                            i
                        } else {
                            i + 1
                        };
                        assert(self.order@[i] == order0[q]);
                        assert(order0[q] != order0[p]);
                    }
                    lemma_chain_same_nodes(nodes1, self.nodes@, self.order@, self.head, self.tail);
                }
                true
            },
            None => {
                proof {
                    lemma_without_absent(self@, s@);
                }
                false
            },
        }
    }

    /// Removes `value` if present; returns whether it was.
    pub fn remove(&mut self, value: &String) -> (removed: bool)
        requires
            old(self).wf(),
        ensures
            final(self).wf(),
            removed == old(self)@.contains(value@),
            final(self)@ == without(old(self)@, value@),
            final(self).spec_slot_count() == old(self).spec_slot_count(),
    {
        self.remove_str(value.as_str())
    }

    /// Whether `s` is in the list.
    pub fn contains_str(&self, s: &str) -> (r: bool)
        requires
            self.wf(),
        ensures
            r == self@.contains(s@),
    {
        proof {
            self.lemma_wf_facts();
        }
        self.index.contains_key(s)
    }

    /// Whether `value` is in the list.
    pub fn contains(&self, value: &String) -> (r: bool)
        requires
            self.wf(),
        ensures
            r == self@.contains(value@),
    {
        self.contains_str(value.as_str())
    }

    /// The stored entry equal to `value`, if any.
    pub fn get(&self, value: &String) -> (r: Option<&String>)
        requires
            self.wf(),
        ensures
            match r {
                Some(v) => self@.contains(value@) && v@ == value@,
                None => !self@.contains(value@),
            },
    {
        proof {
            self.lemma_wf_facts();
        }
        match self.find_slot(value.as_str()) {
            Some(slot) => {
                let ghost p = self.lemma_index_pos(value@);
                match &self.nodes[slot] {
                    Some(n) => Some(&n.value),
                    None => None,
                }
            },
            None => None,
        }
    }

    /// The stored string equal to `s`, if any.
    pub fn get_str(&self, s: &str) -> (r: Option<&str>)
        requires
            self.wf(),
        ensures
            match r {
                Some(v) => self@.contains(s@) && v@ == s@,
                None => !self@.contains(s@),
            },
    {
        proof {
            self.lemma_wf_facts();
        }
        match self.find_slot(s) {
            Some(slot) => {
                let ghost p = self.lemma_index_pos(s@);
                match &self.nodes[slot] {
                    Some(n) => Some(n.value.as_str()),
                    None => None,
                }
            },
            None => None,
        }
    }

    /// Number of entries.
    pub fn len(&self) -> (r: usize)
        requires
            self.wf(),
        ensures
            r == self@.len(),
    {
        self.len
    }

    /// Whether the list holds no entry.
    pub fn is_empty(&self) -> (r: bool)
        requires
            self.wf(),
        ensures
            r == (self@.len() == 0),
    {
        self.len == 0
    }

    /// Number of arena slots, live or free.  It never exceeds the largest
    /// number of entries the list has held.
    pub fn slot_count(&self) -> (r: usize)
        ensures
            r == self.spec_slot_count(),
    {
        self.nodes.len()
    }

    /// Law: a well-formed list never holds a value twice.
    pub proof fn lemma_no_duplicates(&self)
        requires
            self.wf(),
        ensures
            self@.no_duplicates(),
            self.spec_slot_count() >= self@.len(),
    {
        self.lemma_wf_facts();
    }


    /// Iterator over the entries from the most recent to the oldest.
    pub fn iter(&self) -> (it: Iter<'_>)
        requires
            self.wf(),
        ensures
            it.wf(),
            it@ == self@,
    {
        proof {
            reveal(chain_ok);
        }
        Iter { nodes: &self.nodes, current: self.head, rest: Ghost(self.order@) }
    }

    /// The entries as string slices, from the most recent to the oldest.
    pub fn str_iter(&self) -> (r: Vec<&str>)
        requires
            self.wf(),
        ensures
            strs_view(r@) == self@,
    {
        let mut it = self.iter();
        let mut out: Vec<&str> = Vec::new();
        loop
            invariant
                it.wf(),
                strs_view(out@) + it@ == self@,
            ensures
                strs_view(out@) == self@,
            decreases it@.len(),
        {
            let ghost before = it@;
            let ghost out0 = out@;
            match it.next() {
                Some(v) => {
                    out.push(v.as_str());
                    proof {
                        assert(strs_view(out@) =~= strs_view(out0).push(v@));
                        assert(strs_view(out@) + it@ =~= strs_view(out0) + before);
                    }
                },
                None => {
                    assert(strs_view(out@) =~= self@);
                    break ;
                },
            }
        }
        out
    }

    /// The entry at position `idx`, counting from the most recent (0).
    pub fn index(&self, idx: usize) -> (r: &str)
        requires
            self.wf(),
            idx < self@.len(),
        ensures
            r@ == self@[idx as int],
    {
        proof {
            reveal(chain_ok);
        }
        let ghost order = self.order@;
        let mut current = self.head;
        let mut k: usize = 0;
        while k < idx
            invariant
                self.wf(),
                chain_ok(self.nodes@, order, self.head, self.tail),
                order == self.order@,
                idx < order.len(),
                k <= idx,
                current == Some(order[k as int]),
            decreases idx - k,
        {
            let slot = match current {
                Some(s) => s,
                None => 0,
            };
            proof {
                reveal(chain_ok);
            }
            current = match &self.nodes[slot] {
                Some(n) => n.next,
                None => None,
            };
            k = k + 1;
        }
        proof {
            reveal(chain_ok);
        }
        let slot = match current {
            Some(s) => s,
            None => 0,
        };
        match &self.nodes[slot] {
            Some(n) => n.value.as_str(),
            None => "",
        }
    }

    /// Builds a list by pushing `items` in order, so the last item ends up
    /// at the front; repeated items are handled as repeated pushes are.
    pub fn from_strs(items: &[&str]) -> (r: Self)
        ensures
            r.wf(),
            r@ == pushed_all(strs_view(items@)),
    {
        let mut list = HistoryList::new();
        let mut i: usize = 0;
        while i < items.len()
            invariant
                i <= items@.len(),
                list.wf(),
                list@ == pushed_all(strs_view(items@).take(i as int)),
            decreases items@.len() - i,
        {
            list.push_str(items[i]);
            proof {
                let m = strs_view(items@);
                assert(m.take(i + 1).drop_last() =~= m.take(i as int));
                assert(m.take(i + 1).last() == items@[i as int]@);
            }
            i = i + 1;
        }
        assert(strs_view(items@).take(items@.len() as int) =~= strs_view(items@));
        list
    }

    /// Builds a list by pushing owned `items` in order.
    pub fn from_strings(items: Vec<String>) -> (r: Self)
        ensures
            r.wf(),
            r@ == pushed_all(strings_view(items@)),
    {
        let mut list = HistoryList::new();
        let mut i: usize = 0;
        while i < items.len()
            invariant
                i <= items@.len(),
                list.wf(),
                list@ == pushed_all(strings_view(items@).take(i as int)),
            decreases items@.len() - i,
        {
            list.push_str(items[i].as_str());
            proof {
                let m = strings_view(items@);
                assert(m.take(i + 1).drop_last() =~= m.take(i as int));
                assert(m.take(i + 1).last() == items@[i as int]@);
            }
            i = i + 1;
        }
        assert(strings_view(items@).take(items@.len() as int) =~= strings_view(items@));
        list
    }

}


impl Default for HistoryList {
    fn default() -> (r: Self)
        ensures
            r.wf(),
            r@ == Seq::<Seq<char>>::empty(),
    {
        HistoryList::new()
    }
}

/// Sequential walk over a list's entries, newest to oldest.
pub struct Iter<'a> {
    nodes: &'a Vec<Option<Node>>,
    current: Option<usize>,
    rest: Ghost<Seq<usize>>,
}

impl<'a> View for Iter<'a> {
    type V = Seq<Seq<char>>;

    closed spec fn view(&self) -> Seq<Seq<char>> {
        values_of(self.nodes@, self.rest@)
    }
}

impl<'a> Iter<'a> {
    /// The remaining slots form a forward chain starting at `current`.
    pub closed spec fn wf(&self) -> bool {
        let rest = self.rest@;
        &&& self.current == (if rest.len() == 0 {
            None::<usize>
        } else {
            Some(rest[0])
        })
        &&& forall|i: int|
            0 <= i < rest.len() ==> (#[trigger] rest[i]) < self.nodes@.len() && self.nodes@[rest[i] as int] is Some
                && node_next(self.nodes@[rest[i] as int]) == (if i == rest.len() - 1 {
                None::<usize>
            } else {
                Some(rest[i + 1])
            })
    }

    /// The next entry, or `None` when the walk is over.
    pub fn next(&mut self) -> (r: Option<&'a String>)
        requires
            old(self).wf(),
        ensures
            final(self).wf(),
            match r {
                Some(v) => old(self)@.len() > 0 && v@ == old(self)@[0] && final(self)@ == old(
                    self,
                )@.drop_first(),
                None => old(self)@.len() == 0 && final(self)@ == old(self)@,
            },
    {
        match self.current {
            None => None,
            Some(slot) => {
                let nodes: &'a Vec<Option<Node>> = self.nodes;
                let ghost rest = self.rest@;
                match &nodes[slot] {
                    Some(n) => {
                        self.current = n.next;
                        self.rest = Ghost(rest.drop_first());
                        proof {
                            assert forall|i: int| 0 <= i < rest.drop_first().len() implies #[trigger] rest.drop_first()[i]
                                == rest[i + 1] by {}
                            assert(self@ =~= old(self)@.drop_first());
                        }
                        Some(&n.value)
                    },
                    None => None,
                }
            },
        }
    }
}

} // verus!
